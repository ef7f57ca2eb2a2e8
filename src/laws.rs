use vstd::prelude::*;
use crate::process::{Kind, ProcessView};
use crate::scheduler::{ManagerView, MAX_TIME};
use crate::driver::{run_from, reports_from};

verus! {

broadcast use vstd::multiset::group_multiset_axioms, vstd::seq_lib::group_to_multiset_ensures;

/// Taking the head off a non-empty sequence takes one copy of it off its multiset.
pub proof fn lemma_drop_first_bag(s: Seq<usize>)
    requires
        s.len() > 0,
    ensures
        s.drop_first().to_multiset() =~= s.to_multiset().remove(s[0]),
        s.to_multiset().count(s[0]) > 0,
{
    assert(s.drop_first() =~= s.remove(0));
    assert(s.contains(s[0]));
}

/// `n` keeps of every process of `m` its id, its service on each device, and its end
/// and wait times.
pub open spec fn keeps_progress(m: ManagerView, n: ManagerView) -> bool {
    &&& n.table.len() == m.table.len()
    &&& forall|i: int|
        0 <= i < m.table.len() ==> {
            &&& #[trigger] n.table[i].id == m.table[i].id
            &&& n.table[i].cpu_total == m.table[i].cpu_total
            &&& n.table[i].in_total == m.table[i].in_total
            &&& n.table[i].out_total == m.table[i].out_total
            &&& n.table[i].end_time == m.table[i].end_time
            &&& n.table[i].wait_time == m.table[i].wait_time
        }
}

/// Admitting the head of the entry queue keeps the state well formed, keeps every
/// process's service and status, and keeps each device's service bound from `t` on.
#[verifier::rlimit(50)]
pub proof fn lemma_admit_head(m: ManagerView, t: nat)
    requires
        m.wf(),
        m.can_admit(t),
    ensures
        m.admit_head(t).wf(),
        m.admit_head(t).residence() =~= m.residence(),
        keeps_progress(m, m.admit_head(t)),
        forall|k: Kind, b: nat| m.device_ok(k, b) && t <= b ==> #[trigger] m.admit_head(t).device_ok(k, b),
{
    let n = m.admit_head(t);
    let i = m.entryq[0];
    lemma_drop_first_bag(m.entryq);
    assert(n.residence() =~= m.residence());
    assert(m.residence().count(i) > 0);
    assert(i < m.table.len());
    assert(m.table[m.entryq[0] as int].is_fresh());
    assert(m.residence().count((i as int) as usize) == 1);
    assert(m.entryq.to_multiset().count(i) == 1);
    assert(!n.entryq.contains(i));
    assert forall|j: int| 0 <= j < n.entryq.len() implies #[trigger] n.table[n.entryq[j] as int].is_fresh() by {
        let x = n.entryq[j];
        assert(m.entryq[j + 1] == x);
        assert(m.table[m.entryq[j + 1] as int].is_fresh());
        assert(n.entryq.contains(x));
        assert(m.entryq.contains(x));
        assert(m.residence().count(x) > 0);
    }
    assert forall|j: int| 0 <= j < n.inputq.len() implies #[trigger] n.table[n.inputq[j] as int].waits_on(Kind::InputIO) by {
        let x = m.inputq[j];
        assert(m.inputq.contains(x));
        assert(m.residence().count(x) > 0);
        assert(!m.inputq.contains(i));
    }
    assert forall|j: int| 0 <= j < n.outputq.len() implies #[trigger] n.table[n.outputq[j] as int].waits_on(Kind::OutputIO) by {
        let x = m.outputq[j];
        assert(m.outputq.contains(x));
        assert(m.residence().count(x) > 0);
        assert(!m.outputq.contains(i));
    }
    assert forall|ii: int| 0 <= ii < n.table.len() implies #[trigger] n.table[ii].is_consistent(ii) by {
        assert(m.table[ii].is_consistent(ii));
    }
    assert(n.each_in_one_place());
    assert(n.within_capacity());
    if let Some(a) = m.active {
        assert(m.residence().count(a) > 0);
    }
    if let Some(a) = m.iactive {
        assert(m.residence().count(a) > 0);
    }
    if let Some(a) = m.oactive {
        assert(m.residence().count(a) > 0);
    }
    assert(n.occupants_ok());
    assert forall|k: Kind, b: nat| m.device_ok(k, b) && t <= b implies #[trigger] n.device_ok(k, b) by {
        assert forall|ii: int| 0 <= ii < n.table.len() && !n.table[ii].is_terminated() implies #[trigger] n.table[ii].total(k)
                + n.table[ii].start_time <= b by {
            assert(m.table[ii].total(k) + m.table[ii].start_time <= b);
        }
    }
}

/// Admission keeps the state well formed, keeps where the processes are as a whole and
/// their progress, and keeps each device's service bound from `t` on.
pub proof fn lemma_admitted(m: ManagerView, t: nat)
    requires
        m.wf(),
    ensures
        m.admitted(t).wf(),
        m.admitted(t).residence() =~= m.residence(),
        keeps_progress(m, m.admitted(t)),
        forall|k: Kind, b: nat| m.device_ok(k, b) && t <= b ==> #[trigger] m.admitted(t).device_ok(k, b),
    decreases m.entryq.len(),
{
    if m.can_admit(t) {
        lemma_admit_head(m, t);
        lemma_admitted(m.admit_head(t), t);
    }
}

/// In a state well formed but for process `i`, the queues and slots hold valid indices
/// other than `i`.
pub proof fn lemma_aside_places(m: ManagerView, i: usize)
    requires
        m.wf_aside(i),
    ensures
        forall|j: int| 0 <= j < m.entryq.len() ==> #[trigger] m.entryq[j] != i && m.entryq[j] < m.table.len(),
        forall|j: int| 0 <= j < m.readyq.len() ==> #[trigger] m.readyq[j] != i && m.readyq[j] < m.table.len(),
        forall|j: int| 0 <= j < m.inputq.len() ==> #[trigger] m.inputq[j] != i && m.inputq[j] < m.table.len(),
        forall|j: int| 0 <= j < m.outputq.len() ==> #[trigger] m.outputq[j] != i && m.outputq[j] < m.table.len(),
        m.active matches Some(a) ==> a != i && a < m.table.len(),
        m.iactive matches Some(a) ==> a != i && a < m.table.len(),
        m.oactive matches Some(a) ==> a != i && a < m.table.len(),
{
    assert(m.residence().count((i as int) as usize) == 0);
    if let Some(a) = m.active {
        assert(m.residence().count(a) > 0);
    }
    if let Some(a) = m.iactive {
        assert(m.residence().count(a) > 0);
    }
    if let Some(a) = m.oactive {
        assert(m.residence().count(a) > 0);
    }
    assert forall|j: int| 0 <= j < m.entryq.len() implies #[trigger] m.entryq[j] != i && m.entryq[j] < m.table.len() by {
        assert(m.entryq.contains(m.entryq[j]));
        assert(m.residence().count(m.entryq[j]) > 0);
    }
    assert forall|j: int| 0 <= j < m.readyq.len() implies #[trigger] m.readyq[j] != i && m.readyq[j] < m.table.len() by {
        assert(m.readyq.contains(m.readyq[j]));
        assert(m.residence().count(m.readyq[j]) > 0);
    }
    assert forall|j: int| 0 <= j < m.inputq.len() implies #[trigger] m.inputq[j] != i && m.inputq[j] < m.table.len() by {
        assert(m.inputq.contains(m.inputq[j]));
        assert(m.residence().count(m.inputq[j]) > 0);
    }
    assert forall|j: int| 0 <= j < m.outputq.len() implies #[trigger] m.outputq[j] != i && m.outputq[j] < m.table.len() by {
        assert(m.outputq.contains(m.outputq[j]));
        assert(m.residence().count(m.outputq[j]) > 0);
    }
}

/// Termination of process `i`, set aside, at tick `t`.
pub proof fn lemma_terminate(m: ManagerView, i: usize, t: nat)
    requires
        m.wf_aside(i),
        m.table[i as int].at_last(),
        t <= MAX_TIME,
        forall|k: Kind| #[trigger] m.device_ok(k, t + 1),
    ensures
        m.after_burst(i, t).wf(),
{
    let n = m.after_burst(i, t);
    let p = m.table[i as int];
    assert(p.is_consistent(i as int));
    assert(m.device_ok(Kind::Compute, t + 1));
    assert(m.device_ok(Kind::InputIO, t + 1));
    assert(m.device_ok(Kind::OutputIO, t + 1));
    assert(m.table[i as int].total(Kind::Compute) + p.start_time <= t + 1);
    assert(m.table[i as int].total(Kind::InputIO) + p.start_time <= t + 1);
    assert(m.table[i as int].total(Kind::OutputIO) + p.start_time <= t + 1);
    lemma_aside_places(m, i);
    assert(n.residence() =~= m.residence());
    assert forall|j: int| 0 <= j < n.table.len() implies #[trigger] n.table[j].is_consistent(j) by {
        assert(m.table[j].is_consistent(j));
    }
    assert(n.each_in_one_place());
    assert(n.occupants_ok());
}

/// Process `i`, set aside, moving on to its next instruction.
pub proof fn lemma_requeue(m: ManagerView, i: usize, t: nat)
    requires
        m.wf_aside(i),
        !m.table[i as int].at_last(),
    ensures
        m.after_burst(i, t).wf(),
{
    let n = m.after_burst(i, t);
    let p = m.table[i as int];
    assert(p.is_consistent(i as int));
    let q = ProcessView { history_index: p.history_index + 1, ..p };
    assert(q.history[q.history_index as int].1 > 0);
    lemma_aside_places(m, i);
    assert(n.residence() =~= m.residence().insert(i));
    assert forall|j: int| 0 <= j < n.table.len() implies #[trigger] n.table[j].is_consistent(j) by {
        assert(m.table[j].is_consistent(j));
    }
    assert(n.each_in_one_place());
    assert(n.occupants_ok());
}

/// Completing a burst, on a state well formed but for the process that completed it,
/// gives a well-formed state, keeps every process's service and id, and keeps each
/// device's service bound.
#[verifier::rlimit(50)]
pub proof fn lemma_after_burst(m: ManagerView, i: usize, t: nat)
    requires
        m.wf_aside(i),
        t <= MAX_TIME,
        forall|k: Kind| #[trigger] m.device_ok(k, t + 1),
    ensures
        m.after_burst(i, t).wf(),
        forall|k: Kind, b: nat| m.device_ok(k, b) ==> #[trigger] m.after_burst(i, t).device_ok(k, b),
        forall|j: int|
            0 <= j < m.table.len() ==> {
                &&& #[trigger] m.after_burst(i, t).table[j].id == m.table[j].id
                &&& m.after_burst(i, t).table[j].cpu_total == m.table[j].cpu_total
                &&& m.after_burst(i, t).table[j].in_total == m.table[j].in_total
                &&& m.after_burst(i, t).table[j].out_total == m.table[j].out_total
                &&& m.after_burst(i, t).table[j].start_time == m.table[j].start_time
            },
        m.after_burst(i, t).table.len() == m.table.len(),
{
    let n = m.after_burst(i, t);
    if m.table[i as int].at_last() {
        lemma_terminate(m, i, t);
    } else {
        lemma_requeue(m, i, t);
    }
    assert forall|k: Kind, b: nat| m.device_ok(k, b) implies #[trigger] n.device_ok(k, b) by {
        assert forall|j: int| 0 <= j < n.table.len() && !n.table[j].is_terminated() implies #[trigger] n.table[j].total(k)
                + n.table[j].start_time <= b by {
            assert(m.table[j].total(k) + m.table[j].start_time <= b);
        }
    }
}

/// The occupant of a slot is a valid index that sits nowhere else, and has not terminated.
pub proof fn lemma_slot_occupant(m: ManagerView, k: Kind, i: usize)
    requires
        m.wf(),
        m.slot(k) == Some(i),
    ensures
        i < m.table.len(),
        !m.table[i as int].is_terminated(),
        m.residence().count(i) == 1,
        forall|j: int| 0 <= j < m.entryq.len() ==> #[trigger] m.entryq[j] != i,
        forall|j: int| 0 <= j < m.readyq.len() ==> #[trigger] m.readyq[j] != i,
        forall|j: int| 0 <= j < m.inputq.len() ==> #[trigger] m.inputq[j] != i,
        forall|j: int| 0 <= j < m.outputq.len() ==> #[trigger] m.outputq[j] != i,
        k != Kind::Compute ==> m.active != Some(i),
        k != Kind::InputIO ==> m.iactive != Some(i),
        k != Kind::OutputIO ==> m.oactive != Some(i),
{
    assert(m.residence().count(i) > 0);
    assert(m.residence().count((i as int) as usize) == 1);
    assert forall|j: int| 0 <= j < m.entryq.len() implies #[trigger] m.entryq[j] != i by {
        assert(m.entryq.contains(m.entryq[j]));
    }
    assert forall|j: int| 0 <= j < m.readyq.len() implies #[trigger] m.readyq[j] != i by {
        assert(m.readyq.contains(m.readyq[j]));
    }
    assert forall|j: int| 0 <= j < m.inputq.len() implies #[trigger] m.inputq[j] != i by {
        assert(m.inputq.contains(m.inputq[j]));
    }
    assert forall|j: int| 0 <= j < m.outputq.len() implies #[trigger] m.outputq[j] != i by {
        assert(m.outputq.contains(m.outputq[j]));
    }
}

/// Filling an empty I/O slot from its queue keeps the state well formed and the table as
/// it is.
pub proof fn lemma_loaded_io(m: ManagerView, k: Kind)
    requires
        m.wf(),
        k != Kind::Compute,
    ensures
        m.loaded_io(k).wf(),
        m.loaded_io(k).table == m.table,
        m.loaded_io(k).old_active_id == m.old_active_id,
{
    let n = m.loaded_io(k);
    if m.slot(k) is None && m.queue(k).len() > 0 {
        lemma_drop_first_bag(m.queue(k));
        assert(n.residence() =~= m.residence());
        assert(m.queue(k).contains(m.queue(k)[0]));
        assert(n.occupants_ok()) by {
            if k == Kind::InputIO {
                assert forall|j: int| 0 <= j < n.inputq.len() implies #[trigger] n.table[n.inputq[j] as int].waits_on(Kind::InputIO) by {
                    assert(n.inputq[j] == m.inputq[j + 1]);
                }
            } else {
                assert forall|j: int| 0 <= j < n.outputq.len() implies #[trigger] n.table[n.outputq[j] as int].waits_on(Kind::OutputIO) by {
                    assert(n.outputq[j] == m.outputq[j + 1]);
                }
            }
        }
    }
}

/// Changing only process `i`, which sits in the slot of device `k`, into `q` keeps what
/// the queues and the other slots ask of their occupants.
pub proof fn lemma_occupants_but_slot(m: ManagerView, k: Kind, i: usize, q: ProcessView)
    requires
        m.wf(),
        m.slot(k) == Some(i),
    ensures
        ({
            let n = m.with_process(i, q);
            &&& forall|j: int| 0 <= j < n.entryq.len() ==> #[trigger] n.table[n.entryq[j] as int].is_fresh()
            &&& forall|j: int| 0 <= j < n.inputq.len() ==> #[trigger] n.table[n.inputq[j] as int].waits_on(Kind::InputIO)
            &&& forall|j: int| 0 <= j < n.outputq.len() ==> #[trigger] n.table[n.outputq[j] as int].waits_on(Kind::OutputIO)
            &&& (k != Kind::Compute ==> (n.active matches Some(a) ==> n.table[a as int].cpu_timer >= 1))
            &&& (k != Kind::InputIO ==> (n.iactive matches Some(a) ==> n.table[a as int].waits_on(Kind::InputIO)))
            &&& (k != Kind::OutputIO ==> (n.oactive matches Some(a) ==> n.table[a as int].waits_on(Kind::OutputIO)))
        }),
{
    lemma_slot_occupant(m, k, i);
    let n = m.with_process(i, q);
    assert forall|j: int| 0 <= j < n.entryq.len() implies #[trigger] n.table[n.entryq[j] as int].is_fresh() by {
        assert(m.entryq.contains(m.entryq[j]));
        assert(m.residence().count(m.entryq[j]) > 0);
    }
    assert forall|j: int| 0 <= j < n.inputq.len() implies #[trigger] n.table[n.inputq[j] as int].waits_on(Kind::InputIO) by {
        assert(m.inputq.contains(m.inputq[j]));
        assert(m.residence().count(m.inputq[j]) > 0);
    }
    assert forall|j: int| 0 <= j < n.outputq.len() implies #[trigger] n.table[n.outputq[j] as int].waits_on(Kind::OutputIO) by {
        assert(m.outputq.contains(m.outputq[j]));
        assert(m.residence().count(m.outputq[j]) > 0);
    }
    if let Some(a) = m.active {
        assert(m.residence().count(a) > 0);
    }
    if let Some(a) = m.iactive {
        assert(m.residence().count(a) > 0);
    }
    if let Some(a) = m.oactive {
        assert(m.residence().count(a) > 0);
    }
}

/// Changing only process `i` into `q`, where `q` keeps its id, history, cursor, status,
/// start time and wait time and no device's bursts outrun its service, keeps every
/// process consistent.
pub proof fn lemma_consistent_update(m: ManagerView, i: usize, q: ProcessView)
    requires
        m.wf(),
        i < m.table.len(),
        !m.table[i as int].is_terminated(),
        q.id == m.table[i as int].id,
        q.history == m.table[i as int].history,
        q.history_index == m.table[i as int].history_index,
        q.end_time == 0,
        q.wait_time == 0,
        q.cpu_burst_count <= q.cpu_total,
        q.in_burst_count <= q.in_total,
        q.out_burst_count <= q.out_total,
    ensures
        forall|j: int| 0 <= j < m.table.len() ==> #[trigger] m.with_process(i, q).table[j].is_consistent(j),
{
    let n = m.with_process(i, q);
    assert(m.table[i as int].is_consistent(i as int));
    assert forall|j: int| 0 <= j < n.table.len() implies #[trigger] n.table[j].is_consistent(j) by {
        assert(m.table[j].is_consistent(j));
    }
}

/// After one tick of service on device `k` to process `i`, only `i` has more service from
/// `k`, by one tick; the other devices' bounds stand.
pub proof fn lemma_served_bounds(m: ManagerView, n: ManagerView, k: Kind, i: usize, t: nat)
    requires
        m.device_ok(k, t),
        i < m.table.len(),
        n.table.len() == m.table.len(),
        forall|j: int| 0 <= j < m.table.len() && j != i ==> #[trigger] n.table[j] == m.table[j],
        n.table[i as int].start_time == m.table[i as int].start_time,
        n.table[i as int].end_time == m.table[i as int].end_time,
        n.table[i as int].total(k) == m.table[i as int].total(k) + 1,
        forall|kk: Kind| kk != k ==> #[trigger] n.table[i as int].total(kk) == m.table[i as int].total(kk),
    ensures
        n.device_ok(k, t + 1),
        forall|kk: Kind, b: nat| kk != k && m.device_ok(kk, b) ==> #[trigger] n.device_ok(kk, b),
{
    assert forall|kk: Kind, b: nat| kk != k && m.device_ok(kk, b) implies #[trigger] n.device_ok(kk, b) by {
        assert forall|j: int| 0 <= j < n.table.len() && !n.table[j].is_terminated() implies #[trigger] n.table[j].total(kk)
                + n.table[j].start_time <= b by {
            assert(m.table[j].total(kk) + m.table[j].start_time <= b);
        }
    }
    assert forall|j: int| 0 <= j < n.table.len() && !n.table[j].is_terminated() implies #[trigger] n.table[j].total(k)
            + n.table[j].start_time <= t + 1 by {
        assert(m.table[j].total(k) + m.table[j].start_time <= t);
    }
}

/// One tick of service to the occupant `i` of the slot of device `k`, whose burst goes on,
/// keeps the state well formed.
#[verifier::rlimit(50)]
pub proof fn lemma_serve_continues(m: ManagerView, k: Kind, i: usize)
    requires
        m.wf(),
        m.slot(k) == Some(i),
        m.table[i as int].timer(k) >= 1,
        m.table[i as int].served(k).timer(k) > 0,
    ensures
        m.with_process(i, m.table[i as int].served(k)).wf(),
{
    lemma_slot_occupant(m, k, i);
    let q = m.table[i as int].served(k);
    let n = m.with_process(i, q);
    assert(m.table[i as int].is_consistent(i as int));
    lemma_consistent_update(m, i, q);
    lemma_occupants_but_slot(m, k, i, q);
    assert(n.residence() =~= m.residence());
    assert(n.occupants_ok());
}

/// One tick of service to the occupant `i` of the slot of device `k`, which completes its
/// burst; taking it out of its slot leaves the state well formed but for it.
#[verifier::rlimit(50)]
pub proof fn lemma_serve_completes(m: ManagerView, k: Kind, i: usize)
    requires
        m.wf(),
        m.slot(k) == Some(i),
        m.table[i as int].timer(k) >= 1,
        m.table[i as int].served(k).timer(k) == 0,
    ensures
        m.with_process(i, m.table[i as int].served(k).burst_done(k)).with_slot(k, None).wf_aside(i),
{
    lemma_slot_occupant(m, k, i);
    let q = m.table[i as int].served(k).burst_done(k);
    let n1 = m.with_process(i, q);
    let n = n1.with_slot(k, None);
    assert(m.table[i as int].is_consistent(i as int));
    lemma_consistent_update(m, i, q);
    lemma_occupants_but_slot(m, k, i, q);
    assert(n.residence() =~= m.residence().remove(i));
    assert(n.occupants_ok());
}

/// A service bound that holds up to `a` holds up to any later `b`.
pub proof fn lemma_device_ok_mono(m: ManagerView, k: Kind, a: nat, b: nat)
    requires
        m.device_ok(k, a),
        a <= b,
    ensures
        m.device_ok(k, b),
{
    assert forall|j: int| 0 <= j < m.table.len() && !m.table[j].is_terminated() implies #[trigger] m.table[j].total(k)
            + m.table[j].start_time <= b by {
        assert(m.table[j].total(k) + m.table[j].start_time <= a);
    }
}

/// Serving the occupant `i` of the slot of device `k` at tick `t` and, when its burst is
/// done, moving it on: the state stays well formed, `k`'s service bound moves to `t + 1`,
/// and the other devices' bounds stand.
pub proof fn lemma_serve_step(m: ManagerView, k: Kind, i: usize, t: nat)
    requires
        m.wf(),
        m.slot(k) == Some(i),
        m.table[i as int].timer(k) >= 1,
        t <= MAX_TIME,
        m.device_ok(k, t),
        forall|kk: Kind| #[trigger] m.device_ok(kk, t + 1),
    ensures
        m.serve_slot(k, i, t).wf(),
        m.serve_slot(k, i, t).device_ok(k, t + 1),
        forall|kk: Kind, b: nat| kk != k && m.device_ok(kk, b) ==> #[trigger] m.serve_slot(k, i, t).device_ok(kk, b),
{
    lemma_slot_occupant(m, k, i);
    let q = m.table[i as int].served(k);
    if q.timer(k) == 0 {
        let m2 = m.with_process(i, q.burst_done(k)).with_slot(k, None);
        lemma_serve_completes(m, k, i);
        lemma_served_bounds(m, m2, k, i, t);
        assert forall|kk: Kind| #[trigger] m2.device_ok(kk, t + 1) by {
            if kk != k {
                assert(m.device_ok(kk, t + 1));
            }
        }
        lemma_after_burst(m2, i, t);
    } else {
        let n = m.with_process(i, q);
        lemma_serve_continues(m, k, i);
        lemma_served_bounds(m, n, k, i, t);
    }
}

/// The work of I/O device `k` at tick `t` keeps the state well formed, moves `k`'s service
/// bound to `t + 1`, and keeps the other devices' bounds.
pub proof fn lemma_after_io(m: ManagerView, k: Kind, t: nat)
    requires
        m.wf(),
        k != Kind::Compute,
        t <= MAX_TIME,
        m.device_ok(k, t),
        forall|kk: Kind| #[trigger] m.device_ok(kk, t + 1),
    ensures
        m.after_io(k, t).wf(),
        m.after_io(k, t).device_ok(k, t + 1),
        forall|kk: Kind, b: nat| kk != k && m.device_ok(kk, b) ==> #[trigger] m.after_io(k, t).device_ok(kk, b),
{
    let m1 = m.loaded_io(k);
    lemma_loaded_io(m, k);
    lemma_device_ok_mono(m, k, t, t + 1);
    assert(m1.device_ok(k, t));
    assert forall|kk: Kind| #[trigger] m1.device_ok(kk, t + 1) by {
        assert(m.device_ok(kk, t + 1));
    }
    assert forall|kk: Kind, b: nat| m.device_ok(kk, b) implies #[trigger] m1.device_ok(kk, b) by {}
    match m1.slot(k) {
        None => {},
        Some(i) => {
            if m1.old_active_id == Some(m1.table[i as int].id) {
            } else {
                assert(m1.occupants_ok());
                lemma_serve_step(m1, k, i, t);
            }
        },
    }
}

/// Filling an empty compute slot at tick `t` keeps the state well formed, keeps every
/// process's service, and keeps each device's service bound from `t` on.
#[verifier::rlimit(50)]
pub proof fn lemma_loaded_active(m: ManagerView, t: nat)
    requires
        m.wf(),
    ensures
        m.loaded_active(t).wf(),
        forall|k: Kind, b: nat| m.device_ok(k, b) && t <= b ==> #[trigger] m.loaded_active(t).device_ok(k, b),
        m.loaded_active(t).cpu_idle_time == m.cpu_idle_time,
        m.loaded_active(t).old_active_id == m.old_active_id,
{
    if m.active is None {
        let m1 = m.admitted(t);
        lemma_admitted(m, t);
        lemma_admitted_counters(m, t);
        if m1.readyq.len() > 0 {
            let i = m1.readyq[0];
            let p = m1.table[i as int];
            let q = p.with_timer(Kind::Compute, p.current_duration());
            let n = m.loaded_active(t);
            lemma_drop_first_bag(m1.readyq);
            assert(m1.readyq.contains(i));
            assert(m1.residence().count(i) > 0);
            assert(m1.residence().count((i as int) as usize) > 0);
            assert(!p.is_terminated());
            assert(p.is_consistent(i as int));
            assert(p.history[p.history_index as int].1 > 0);
            lemma_consistent_update(m1, i, q);
            assert(n.residence() =~= m1.residence());
            assert(n.table == m1.with_process(i, q).table);
            assert(m1.residence().count((i as int) as usize) == 1);
            assert(n.occupants_ok()) by {
                assert forall|j: int| 0 <= j < n.entryq.len() implies #[trigger] n.table[n.entryq[j] as int].is_fresh() by {
                    assert(m1.entryq.contains(m1.entryq[j]));
                    assert(m1.residence().count(m1.entryq[j]) > 0);
                }
                assert forall|j: int| 0 <= j < n.inputq.len() implies #[trigger] n.table[n.inputq[j] as int].waits_on(Kind::InputIO) by {
                    assert(m1.inputq.contains(m1.inputq[j]));
                    assert(m1.residence().count(m1.inputq[j]) > 0);
                }
                assert forall|j: int| 0 <= j < n.outputq.len() implies #[trigger] n.table[n.outputq[j] as int].waits_on(Kind::OutputIO) by {
                    assert(m1.outputq.contains(m1.outputq[j]));
                    assert(m1.residence().count(m1.outputq[j]) > 0);
                }
                if let Some(a) = m1.iactive {
                    assert(m1.residence().count(a) > 0);
                }
                if let Some(a) = m1.oactive {
                    assert(m1.residence().count(a) > 0);
                }
            }
            assert forall|k: Kind, b: nat| m.device_ok(k, b) && t <= b implies #[trigger] n.device_ok(k, b) by {
                assert(m1.device_ok(k, b));
                assert forall|j: int| 0 <= j < n.table.len() && !n.table[j].is_terminated() implies #[trigger] n.table[j].total(k)
                        + n.table[j].start_time <= b by {
                    assert(m1.table[j].total(k) + m1.table[j].start_time <= b);
                }
            }
        }
    }
}

/// Admission leaves the idle counter and the compute mark alone.
pub proof fn lemma_admitted_counters(m: ManagerView, t: nat)
    ensures
        m.admitted(t).cpu_idle_time == m.cpu_idle_time,
        m.admitted(t).old_active_id == m.old_active_id,
        m.admitted(t).active == m.active,
    decreases m.entryq.len(),
{
    if m.can_admit(t) {
        lemma_admitted_counters(m.admit_head(t), t);
    }
}

/// The compute device's work at tick `t` keeps the state well formed, moves the compute
/// service bound to `t + 1`, keeps the other devices' bounds from `t` on, and counts at
/// most one idle tick.
pub proof fn lemma_after_active(m: ManagerView, t: nat)
    requires
        m.wf(),
        t <= MAX_TIME,
        m.device_ok(Kind::Compute, t),
        forall|kk: Kind| #[trigger] m.device_ok(kk, t + 1),
    ensures
        m.after_active(t).wf(),
        m.after_active(t).device_ok(Kind::Compute, t + 1),
        forall|kk: Kind, b: nat|
            kk != Kind::Compute && t <= b && m.device_ok(kk, b) ==> #[trigger] m.after_active(t).device_ok(kk, b),
        m.after_active(t).cpu_idle_time <= m.cpu_idle_time + 1,
{
    let m1 = m.loaded_active(t);
    lemma_loaded_active(m, t);
    assert forall|kk: Kind| #[trigger] m1.device_ok(kk, t + 1) by {
        assert(m.device_ok(kk, t + 1));
    }
    assert(m1.device_ok(Kind::Compute, t));
    assert forall|kk: Kind, b: nat| kk != Kind::Compute && t <= b && m.device_ok(kk, b) implies #[trigger] m1.device_ok(kk, b) by {}
    match m1.active {
        None => {
            lemma_device_ok_mono(m1, Kind::Compute, t, t + 1);
            let n = m.after_active(t);
            assert(n.table == m1.table);
            assert forall|kk: Kind, b: nat| kk != Kind::Compute && t <= b && m.device_ok(kk, b) implies #[trigger] n.device_ok(kk, b) by {
                assert(m1.device_ok(kk, b));
            }
        },
        Some(i) => {
            let m2 = ManagerView { cpu_idle_status: true, ..m1 };
            assert(m2.residence() == m1.residence());
            assert forall|kk: Kind| #[trigger] m2.device_ok(kk, t + 1) by {
                assert(m1.device_ok(kk, t + 1));
            }
            assert(m2.occupants_ok());
            lemma_serve_step(m2, Kind::Compute, i, t);
            let n = m2.serve_slot(Kind::Compute, i, t);
            let n2 = ManagerView { old_active_id: Some(m1.table[i as int].id), ..n };
            assert(n2.residence() == n.residence());
            lemma_serve_slot_counters(m2, Kind::Compute, i, t);
            let r = m.after_active(t);
            assert(r.table == n.table);
            assert forall|kk: Kind, b: nat| kk != Kind::Compute && t <= b && m.device_ok(kk, b) implies #[trigger] r.device_ok(kk, b) by {
                assert(m1.device_ok(kk, b));
                assert(m2.device_ok(kk, b));
                assert(n.device_ok(kk, b));
            }
        },
    }
}

/// Serving a slot leaves the idle counter alone.
pub proof fn lemma_serve_slot_counters(m: ManagerView, k: Kind, i: usize, t: nat)
    ensures
        m.serve_slot(k, i, t).cpu_idle_time == m.cpu_idle_time,
{
}

/// Once the compute slot has been filled at tick `t` and the device marked busy, the
/// state is ready for serving the slot's occupant.
pub proof fn lemma_busy_compute(m: ManagerView, t: nat)
    requires
        m.wf(),
        m.device_ok(Kind::Compute, t),
        forall|kk: Kind| #[trigger] m.device_ok(kk, t + 1),
    ensures
        ({
            let n = ManagerView { cpu_idle_status: true, ..m.loaded_active(t) };
            &&& n.wf()
            &&& n.device_ok(Kind::Compute, t)
            &&& forall|kk: Kind| #[trigger] n.device_ok(kk, t + 1)
        }),
{
    let m1 = m.loaded_active(t);
    lemma_loaded_active(m, t);
    let n = ManagerView { cpu_idle_status: true, ..m1 };
    assert(n.residence() == m1.residence());
    assert(m1.device_ok(Kind::Compute, t));
    assert forall|kk: Kind| #[trigger] n.device_ok(kk, t + 1) by {
        assert(m.device_ok(kk, t + 1));
        assert(m1.device_ok(kk, t + 1));
    }
}

/// The I/O devices leave the idle counter alone.
pub proof fn lemma_after_io_idle(m: ManagerView, k: Kind, t: nat)
    ensures
        m.after_io(k, t).cpu_idle_time == m.cpu_idle_time,
{
    let m1 = m.loaded_io(k);
    assert(m1.cpu_idle_time == m.cpu_idle_time);
    if let Some(i) = m1.slot(k) {
        lemma_serve_slot_counters(m1, k, i, t);
    }
}

/// A whole tick from a state ready at `t` gives a state ready at `t + 1`.
pub proof fn lemma_after_tick(m: ManagerView, t: nat)
    requires
        m.ready_at(t),
        t <= MAX_TIME,
    ensures
        m.after_tick(t).ready_at(t + 1),
{
    assert forall|kk: Kind| #[trigger] m.device_ok(kk, t + 1) by {
        assert(m.device_ok(kk, t));
        lemma_device_ok_mono(m, kk, t, t + 1);
    }
    assert(m.device_ok(Kind::Compute, t));
    lemma_after_active(m, t);
    let m1 = m.after_active(t);
    assert(m.device_ok(Kind::InputIO, t));
    assert(m.device_ok(Kind::OutputIO, t));
    assert(m1.device_ok(Kind::InputIO, t));
    assert(m1.device_ok(Kind::OutputIO, t));
    assert forall|kk: Kind| #[trigger] m1.device_ok(kk, t + 1) by {
        if kk != Kind::Compute {
            assert(m.device_ok(kk, t + 1));
        }
    }
    lemma_after_io(m1, Kind::InputIO, t);
    let m2 = m1.after_io(Kind::InputIO, t);
    assert(m2.device_ok(Kind::OutputIO, t));
    assert forall|kk: Kind| #[trigger] m2.device_ok(kk, t + 1) by {
        if kk != Kind::InputIO {
            assert(m1.device_ok(kk, t + 1));
        }
    }
    lemma_after_io(m2, Kind::OutputIO, t);
    let m3 = m2.after_io(Kind::OutputIO, t);
    lemma_after_io_idle(m1, Kind::InputIO, t);
    lemma_after_io_idle(m2, Kind::OutputIO, t);
    let n = m.after_tick(t);
    assert(n.residence() == m3.residence());
    assert forall|kk: Kind| #[trigger] n.device_ok(kk, t + 1) by {
        if kk != Kind::OutputIO {
            assert(m2.device_ok(kk, t + 1));
        }
        assert(m3.device_ok(kk, t + 1));
    }
}

/// No history asks for output right after input, past its first instruction (which the
/// compute device serves whatever its kind).
pub open spec fn no_input_then_output(m: ManagerView) -> bool {
    forall|i: int, k: int|
        0 <= i < m.table.len() && 1 <= k && k + 1 < m.table[i].history.len()
            && #[trigger] m.table[i].history[k].0 == Kind::InputIO ==> m.table[i].history[k + 1].0
            != Kind::OutputIO
}

/// How `n` may differ from `m`, the same process before some steps of tick `t`: its
/// service grew by at most `d`; its start time is kept, or set to `t` on admission before
/// any service; its end time is kept, or set to `t + 1` on termination; and a terminated
/// process is left alone.
pub open spec fn stepped(m: ProcessView, n: ProcessView, t: nat, d: nat) -> bool {
    &&& m.service_total() <= n.service_total() <= m.service_total() + d
    &&& (n.start_time == m.start_time || (m.service_total() == 0 && n.start_time == t))
    &&& (n.end_time == m.end_time || n.end_time == t + 1)
    &&& n.history == m.history
    &&& n.id == m.id
    &&& (m.is_terminated() ==> n == m)
}

/// The process that I/O device `k` serves in its step from `m`, if any: the occupant of
/// its slot once filled, unless it left the compute slot in this tick.
pub open spec fn io_served(m: ManagerView, k: Kind) -> Option<usize> {
    let m1 = m.loaded_io(k);
    match m1.slot(k) {
        Some(i) => if m1.old_active_id == Some(m1.table[i as int].id) {
            None
        } else {
            Some(i)
        },
        None => None,
    }
}

/// The transition function changes only the process it moves on, and only its cursor,
/// countdowns and end and wait times; it leaves the slots and the mark alone, and
/// appends to no queue but that of the process's next instruction.
pub proof fn lemma_burst_frame(m: ManagerView, i: usize, t: nat)
    requires
        i < m.table.len(),
        !m.table[i as int].is_terminated(),
    ensures
        ({
            let n = m.after_burst(i, t);
            &&& n.table.len() == m.table.len()
            &&& forall|j: int| 0 <= j < m.table.len() && j != i ==> #[trigger] n.table[j] == m.table[j]
            &&& stepped(m.table[i as int], n.table[i as int], t, 0)
            &&& n.active == m.active && n.iactive == m.iactive && n.oactive == m.oactive
            &&& n.old_active_id == m.old_active_id
            &&& n.entryq == m.entryq
            &&& (m.table[i as int].at_last() ==> n.readyq == m.readyq && n.inputq == m.inputq
                && n.outputq == m.outputq)
            &&& (!m.table[i as int].at_last() && m.table[i as int].next_kind()
                != Kind::OutputIO ==> n.outputq == m.outputq)
        }),
{
}

/// Serving the occupant `i` of the slot of device `k` changes only that process: its
/// service grows by one tick.
pub proof fn lemma_serve_frame(m: ManagerView, k: Kind, i: usize, t: nat)
    requires
        i < m.table.len(),
        !m.table[i as int].is_terminated(),
    ensures
        ({
            let n = m.serve_slot(k, i, t);
            &&& n.table.len() == m.table.len()
            &&& forall|j: int| 0 <= j < m.table.len() && j != i ==> #[trigger] n.table[j] == m.table[j]
            &&& stepped(m.table[i as int], n.table[i as int], t, 1)
            &&& n.old_active_id == m.old_active_id
            &&& n.entryq == m.entryq
            &&& (k != Kind::Compute ==> n.active == m.active)
            &&& (k == Kind::InputIO && !(m.table[i as int].served(k).timer(k) == 0 && !m.table[i as int].at_last()
                && m.table[i as int].next_kind() == Kind::OutputIO)
                ==> n.outputq == m.outputq && n.oactive == m.oactive)
        }),
{
    let p = m.table[i as int].served(k);
    if p.timer(k) == 0 {
        let m2 = m.with_process(i, p.burst_done(k)).with_slot(k, None);
        lemma_burst_frame(m2, i, t);
    }
}

/// Steps of one tick compose.
pub proof fn lemma_stepped_trans(a: ProcessView, b: ProcessView, c: ProcessView, t: nat, d1: nat, d2: nat)
    requires
        stepped(a, b, t, d1),
        stepped(b, c, t, d2),
    ensures
        stepped(a, c, t, d1 + d2),
{
}

/// Admission only starts fresh processes at `t`.
pub proof fn lemma_admitted_frame(m: ManagerView, t: nat)
    requires
        m.wf(),
    ensures
        m.admitted(t).table.len() == m.table.len(),
        forall|j: int| 0 <= j < m.table.len() ==> #[trigger] stepped(m.table[j], m.admitted(t).table[j], t, 0),
    decreases m.entryq.len(),
{
    if m.can_admit(t) {
        let n = m.admit_head(t);
        let i = m.entryq[0];
        lemma_admit_head(m, t);
        assert(m.table[m.entryq[0] as int].is_fresh());
        assert(m.entryq.contains(i));
        assert(m.residence().count(i) > 0);
        lemma_admitted_frame(n, t);
        assert forall|j: int| 0 <= j < m.table.len() implies #[trigger] stepped(m.table[j], m.admitted(t).table[j], t, 0) by {
            assert(stepped(m.table[j], n.table[j], t, 0));
            lemma_stepped_trans(m.table[j], n.table[j], m.admitted(t).table[j], t, 0, 0);
        }
    }
}

/// The histories are those of `m`, so no history asks for output right after input.
pub proof fn lemma_same_histories(m: ManagerView, n: ManagerView)
    requires
        no_input_then_output(m),
        n.table.len() == m.table.len(),
        forall|j: int| 0 <= j < m.table.len() ==> #[trigger] n.table[j].history == m.table[j].history,
    ensures
        no_input_then_output(n),
{
    assert forall|i: int, k: int|
        0 <= i < n.table.len() && 1 <= k && k + 1 < n.table[i].history.len()
            && #[trigger] n.table[i].history[k].0 == Kind::InputIO implies n.table[i].history[k + 1].0
            != Kind::OutputIO by {
        assert(n.table[i].history == m.table[i].history);
        assert(m.table[i].history[k].0 == Kind::InputIO);
    }
}

/// The step of I/O device `k` changes only the process it serves, by one tick of service;
/// it leaves the compute slot, the entry queue and the mark alone, and, when no history
/// asks for output right after input, the input step leaves the output queue and slot
/// alone.
#[verifier::rlimit(80)]
pub proof fn lemma_io_frame(m: ManagerView, k: Kind, t: nat)
    requires
        m.wf(),
        k != Kind::Compute,
    ensures
        ({
            let n = m.after_io(k, t);
            &&& n.table.len() == m.table.len()
            &&& forall|j: int|
                0 <= j < m.table.len() && io_served(m, k) != Some(j as usize) ==> #[trigger] n.table[j]
                    == m.table[j]
            &&& (io_served(m, k) matches Some(y) ==> y < m.table.len() && stepped(m.table[y as int], n.table[y as int], t, 1)
                && m.loaded_io(k).slot(k) == Some(y))
            &&& n.old_active_id == m.old_active_id
            &&& n.active == m.active
            &&& (k == Kind::InputIO && no_input_then_output(m) ==> n.outputq == m.outputq && n.oactive == m.oactive)
        }),
{
    let m1 = m.loaded_io(k);
    lemma_loaded_io(m, k);
    if let Some(y) = io_served(m, k) {
        lemma_slot_occupant(m1, k, y);
        lemma_serve_frame(m1, k, y, t);
        let p = m1.table[y as int];
        assert(p.is_consistent(y as int));
        if k == Kind::InputIO && no_input_then_output(m) {
            lemma_input_not_to_output(m1, y);
        }
    }
}

/// The occupant of the input slot, when no history asks for output right after input,
/// does not go on to the output device.
pub proof fn lemma_input_not_to_output(m: ManagerView, y: usize)
    requires
        m.wf(),
        m.iactive == Some(y),
        no_input_then_output(m),
    ensures
        m.table[y as int].at_last() || m.table[y as int].next_kind() != Kind::OutputIO,
{
    lemma_slot_occupant(m, Kind::InputIO, y);
    let p = m.table[y as int];
    assert(p.is_consistent(y as int));
    assert(p.waits_on(Kind::InputIO));
    if !p.at_last() {
        assert(m.table[y as int].history[p.history_index as int].0 == Kind::InputIO);
    }
}

/// Filling the compute slot only starts fresh processes at `t` and sets a countdown.
pub proof fn lemma_loaded_active_frame(m: ManagerView, t: nat)
    requires
        m.wf(),
    ensures
        m.loaded_active(t).table.len() == m.table.len(),
        forall|j: int| 0 <= j < m.table.len() ==> #[trigger] stepped(m.table[j], m.loaded_active(t).table[j], t, 0),
{
    if m.active is None {
        let m1 = m.admitted(t);
        lemma_admitted(m, t);
        lemma_admitted_frame(m, t);
        if m1.readyq.len() > 0 {
            let i = m1.readyq[0];
            let n = m.loaded_active(t);
            assert(m1.readyq.contains(i));
            assert(m1.residence().count(i) > 0);
            assert(m1.residence().count((i as int) as usize) > 0);
            assert forall|j: int| 0 <= j < m.table.len() implies #[trigger] stepped(m.table[j], n.table[j], t, 0) by {
                assert(stepped(m.table[j], m1.table[j], t, 0));
                assert(stepped(m1.table[j], n.table[j], t, 0));
                lemma_stepped_trans(m.table[j], m1.table[j], n.table[j], t, 0, 0);
            }
        }
    }
}

/// The compute step changes only the process it serves beyond starting fresh processes:
/// that one gets one tick of service and is then either still in the compute slot or
/// marked as having left it.
pub proof fn lemma_compute_frame(m: ManagerView, t: nat)
    requires
        m.wf(),
    ensures
        ({
            let n = m.after_active(t);
            let x = m.loaded_active(t).active;
            &&& n.table.len() == m.table.len()
            &&& forall|j: int| 0 <= j < m.table.len() && x != Some(j as usize) ==> #[trigger] stepped(m.table[j], n.table[j], t, 0)
            &&& (x matches Some(i) ==> i < m.table.len() && stepped(m.table[i as int], n.table[i as int], t, 1) && (n.active
                == Some(i) || n.old_active_id == Some(n.table[i as int].id)))
        }),
{
    let m1 = m.loaded_active(t);
    lemma_loaded_active(m, t);
    lemma_loaded_active_frame(m, t);
    let n = m.after_active(t);
    match m1.active {
        None => {
            assert forall|j: int| 0 <= j < m.table.len() implies #[trigger] stepped(m.table[j], n.table[j], t, 0) by {
                assert(stepped(m.table[j], m1.table[j], t, 0));
            }
        },
        Some(x) => {
            let m2 = ManagerView { cpu_idle_status: true, ..m1 };
            assert(m2.residence() == m1.residence());
            lemma_slot_occupant(m2, Kind::Compute, x);
            lemma_serve_frame(m2, Kind::Compute, x, t);
            let s2 = m2.serve_slot(Kind::Compute, x, t);
            assert(n.table == s2.table);
            assert forall|j: int| 0 <= j < m.table.len() && Some(x) != Some(j as usize) implies #[trigger] stepped(m.table[j], n.table[j], t, 0) by {
                assert(stepped(m.table[j], m1.table[j], t, 0));
                assert(n.table[j] == m2.table[j]);
            }
            assert(stepped(m.table[x as int], m1.table[x as int], t, 0));
            lemma_stepped_trans(m.table[x as int], m1.table[x as int], n.table[x as int], t, 0, 1);
        },
    }
}

/// Within one tick, the input device does not serve the process that the compute device
/// served.
proof fn lemma_compute_then_input(m: ManagerView, t: nat, j: usize)
    requires
        m.wf(),
        m.after_active(t).wf(),
        m.loaded_active(t).active == Some(j),
    ensures
        io_served(m.after_active(t), Kind::InputIO) != Some(j),
{
    let n1 = m.after_active(t);
    lemma_compute_frame(m, t);
    let n1l = n1.loaded_io(Kind::InputIO);
    lemma_loaded_io(n1, Kind::InputIO);
    if io_served(n1, Kind::InputIO) == Some(j) && n1.active == Some(j) {
        lemma_slot_occupant(n1l, Kind::InputIO, j);
    }
}

/// Within one tick, the output device does not serve the process that the compute device
/// served.
proof fn lemma_compute_then_output(m: ManagerView, t: nat, j: usize)
    requires
        m.wf(),
        m.after_active(t).wf(),
        m.after_active(t).after_io(Kind::InputIO, t).wf(),
        m.loaded_active(t).active == Some(j),
    ensures
        io_served(m.after_active(t).after_io(Kind::InputIO, t), Kind::OutputIO) != Some(j),
{
    let n1 = m.after_active(t);
    let n2 = n1.after_io(Kind::InputIO, t);
    lemma_compute_frame(m, t);
    lemma_io_frame(n1, Kind::InputIO, t);
    let n2l = n2.loaded_io(Kind::OutputIO);
    lemma_loaded_io(n2, Kind::OutputIO);
    if io_served(n1, Kind::InputIO) == Some(j) {
        lemma_compute_then_input(m, t, j);
    }
    assert(n2.table[j as int].id == n1.table[j as int].id);
    if io_served(n2, Kind::OutputIO) == Some(j) && n1.active == Some(j) {
        lemma_slot_occupant(n2l, Kind::OutputIO, j);
    }
}

/// Within one tick, when no history asks for output right after input, the output device
/// does not serve the process that the input device served.
proof fn lemma_input_then_output(n1: ManagerView, t: nat, j: usize)
    requires
        n1.wf(),
        n1.after_io(Kind::InputIO, t).wf(),
        no_input_then_output(n1),
        io_served(n1, Kind::InputIO) == Some(j),
    ensures
        io_served(n1.after_io(Kind::InputIO, t), Kind::OutputIO) != Some(j),
{
    let n2 = n1.after_io(Kind::InputIO, t);
    lemma_io_frame(n1, Kind::InputIO, t);
    let n1l = n1.loaded_io(Kind::InputIO);
    lemma_loaded_io(n1, Kind::InputIO);
    lemma_slot_occupant(n1l, Kind::InputIO, j);
    assert(n1l.outputq == n1.outputq && n1l.oactive == n1.oactive);
    if io_served(n2, Kind::OutputIO) == Some(j) && n2.oactive is None {
        assert(n2.outputq[0] == j);
        assert(n1l.outputq[0] != j);
    }
}

/// Over one whole tick, when no history asks for output right after input, each process
/// gets at most one tick of service, and otherwise changes only as a step allows.
pub proof fn lemma_tick_frame(m: ManagerView, t: nat)
    requires
        m.ready_at(t),
        t <= MAX_TIME,
        no_input_then_output(m),
    ensures
        m.after_tick(t).table.len() == m.table.len(),
        forall|j: int| 0 <= j < m.table.len() ==> #[trigger] stepped(m.table[j], m.after_tick(t).table[j], t, 1),
{
    assert forall|kk: Kind| #[trigger] m.device_ok(kk, t + 1) by {
        assert(m.device_ok(kk, t));
        lemma_device_ok_mono(m, kk, t, t + 1);
    }
    assert(m.device_ok(Kind::Compute, t));
    lemma_after_active(m, t);
    let n1 = m.after_active(t);
    assert(m.device_ok(Kind::InputIO, t));
    assert(m.device_ok(Kind::OutputIO, t));
    assert(n1.device_ok(Kind::InputIO, t));
    assert(n1.device_ok(Kind::OutputIO, t));
    assert forall|kk: Kind| #[trigger] n1.device_ok(kk, t + 1) by {
        if kk != Kind::Compute {
            assert(m.device_ok(kk, t + 1));
        }
    }
    lemma_after_io(n1, Kind::InputIO, t);
    let n2 = n1.after_io(Kind::InputIO, t);
    lemma_compute_frame(m, t);
    lemma_io_frame(n1, Kind::InputIO, t);
    lemma_io_frame(n2, Kind::OutputIO, t);
    let n3 = n2.after_io(Kind::OutputIO, t);
    assert forall|j: int| 0 <= j < n1.table.len() implies #[trigger] n1.table[j].history == m.table[j].history by {
        if m.loaded_active(t).active == Some(j as usize) {
        } else {
            assert(stepped(m.table[j], n1.table[j], t, 0));
        }
    }
    lemma_same_histories(m, n1);
    let x = m.loaded_active(t).active;
    let y = io_served(n1, Kind::InputIO);
    let z = io_served(n2, Kind::OutputIO);
    assert forall|j: int| 0 <= j < m.table.len() implies #[trigger] stepped(m.table[j], m.after_tick(t).table[j], t, 1) by {
        let u = j as usize;
        assert(m.after_tick(t).table[j] == n3.table[j]);
        if x == Some(u) {
            if y == Some(u) {
                lemma_compute_then_input(m, t, u);
            }
            if z == Some(u) {
                lemma_compute_then_output(m, t, u);
            }
            assert(n2.table[j] == n1.table[j]);
            assert(n3.table[j] == n2.table[j]);
        } else if y == Some(u) {
            if z == Some(u) {
                lemma_input_then_output(n1, t, u);
            }
            assert(stepped(m.table[j], n1.table[j], t, 0));
            assert(n3.table[j] == n2.table[j]);
            lemma_stepped_trans(m.table[j], n1.table[j], n2.table[j], t, 0, 1);
        } else {
            assert(stepped(m.table[j], n1.table[j], t, 0));
            assert(n2.table[j] == n1.table[j]);
            if z == Some(u) {
                lemma_stepped_trans(m.table[j], n2.table[j], n3.table[j], t, 0, 1);
            } else {
                assert(n3.table[j] == n2.table[j]);
            }
        }
    }
}

/// The state `n` ticks after state `m` at the start of tick `t`, ticking on regardless of
/// whether the run is over.
pub open spec fn ticks_from(m: ManagerView, t: nat, n: nat) -> ManagerView
    decreases n,
{
    if n == 0 {
        m
    } else {
        ticks_from(m, t, (n - 1) as nat).after_tick((t + n - 1) as nat)
    }
}

/// At the start of tick `t`, no running process has had more service than the ticks since
/// its admission, and no terminated process more than the ticks between its admission and
/// its end: every wait time is at least zero.
pub open spec fn waits_ok(m: ManagerView, t: nat) -> bool {
    forall|j: int|
        0 <= j < m.table.len() ==> if #[trigger] m.table[j].is_terminated() {
            m.table[j].service_total() + m.table[j].start_time <= m.table[j].end_time
        } else {
            m.table[j].service_total() + m.table[j].start_time <= t
        }
}

/// At every tick of a run, every process is in exactly one queue or slot, or has
/// terminated and is in none, and no more processes are resident than the cap allows.
pub proof fn law_one_place_within_capacity(m: ManagerView, t: nat, n: nat)
    requires
        m.ready_at(t),
        t + n <= MAX_TIME + 1,
    ensures
        ticks_from(m, t, n).ready_at(t + n),
        ticks_from(m, t, n).each_in_one_place(),
        ticks_from(m, t, n).within_capacity(),
    decreases n,
{
    if n > 0 {
        law_one_place_within_capacity(m, t, (n - 1) as nat);
        lemma_after_tick(ticks_from(m, t, (n - 1) as nat), (t + n - 1) as nat);
    }
}

/// A process advances on at most one device per tick: when no history asks for output
/// right after input, a tick adds at most one tick of service to any process.
pub proof fn law_one_device_per_tick(m: ManagerView, t: nat)
    requires
        m.ready_at(t),
        t <= MAX_TIME,
        no_input_then_output(m),
    ensures
        forall|j: int|
            0 <= j < m.table.len() ==> #[trigger] m.after_tick(t).table[j].service_total()
                <= m.table[j].service_total() + 1,
{
    lemma_tick_frame(m, t);
    assert forall|j: int| 0 <= j < m.table.len() implies #[trigger] m.after_tick(t).table[j].service_total()
        <= m.table[j].service_total() + 1 by {
        assert(stepped(m.table[j], m.after_tick(t).table[j], t, 1));
    }
}

/// One tick keeps every wait time at least zero, when no history asks for output right
/// after input.
pub proof fn lemma_waits_tick(m: ManagerView, t: nat)
    requires
        m.ready_at(t),
        t <= MAX_TIME,
        no_input_then_output(m),
        waits_ok(m, t),
    ensures
        waits_ok(m.after_tick(t), t + 1),
        no_input_then_output(m.after_tick(t)),
{
    let r = m.after_tick(t);
    lemma_tick_frame(m, t);
    assert forall|j: int| 0 <= j < r.table.len() implies if #[trigger] r.table[j].is_terminated() {
        r.table[j].service_total() + r.table[j].start_time <= r.table[j].end_time
    } else {
        r.table[j].service_total() + r.table[j].start_time <= t + 1
    } by {
        assert(stepped(m.table[j], r.table[j], t, 1));
        if m.table[j].is_terminated() {
        } else {
            assert(m.table[j].service_total() + m.table[j].start_time <= t);
        }
    }
    assert forall|j: int| 0 <= j < m.table.len() implies #[trigger] r.table[j].history == m.table[j].history by {
        assert(stepped(m.table[j], r.table[j], t, 1));
    }
    lemma_same_histories(m, r);
}

/// For every terminated process of a run, the wait time is the elapsed time between
/// admission and end less the service received on the three devices, and, when no history
/// asks for output right after input, it is at least zero.
pub proof fn law_wait_time(m: ManagerView, t: nat, n: nat)
    requires
        m.ready_at(t),
        t + n <= MAX_TIME + 1,
        no_input_then_output(m),
        waits_ok(m, t),
    ensures
        waits_ok(ticks_from(m, t, n), t + n),
        no_input_then_output(ticks_from(m, t, n)),
        forall|j: int|
            0 <= j < ticks_from(m, t, n).table.len() && #[trigger] ticks_from(m, t, n).table[j].is_terminated() ==> {
                &&& ticks_from(m, t, n).table[j].wait_time == ticks_from(m, t, n).table[j].end_time
                    - ticks_from(m, t, n).table[j].start_time - ticks_from(m, t, n).table[j].cpu_total
                    - ticks_from(m, t, n).table[j].in_total - ticks_from(m, t, n).table[j].out_total
                &&& ticks_from(m, t, n).table[j].wait_time >= 0
            },
    decreases n,
{
    law_one_place_within_capacity(m, t, n);
    let s = ticks_from(m, t, n);
    if n > 0 {
        let p = ticks_from(m, t, (n - 1) as nat);
        law_wait_time(m, t, (n - 1) as nat);
        law_one_place_within_capacity(m, t, (n - 1) as nat);
        lemma_waits_tick(p, (t + n - 1) as nat);
    }
    assert forall|j: int| 0 <= j < s.table.len() && #[trigger] s.table[j].is_terminated() implies {
        &&& s.table[j].wait_time == s.table[j].end_time - s.table[j].start_time - s.table[j].cpu_total
            - s.table[j].in_total - s.table[j].out_total
        &&& s.table[j].wait_time >= 0
    } by {
        assert(s.table[j].is_consistent(j));
    }
}

/// Running the simulation is deterministic: two runs from the same state give the same
/// states, the same status reports and the same summary.
pub proof fn law_run_is_deterministic(a: ManagerView, b: ManagerView)
    requires
        a == b,
    ensures
        run_from(a.admitted(0), 0) == run_from(b.admitted(0), 0),
        reports_from(a.admitted(0), 0) == reports_from(b.admitted(0), 0),
{
}

} // verus!
