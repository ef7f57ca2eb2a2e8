use vstd::prelude::*;
use std::collections::VecDeque;
use crate::process::{Kind, ProcessView, FIRST_ID, create_process};
use crate::scheduler::{
    ManagerView, ProcessManager, HOW_OFTEN, MAX_TIME, load_ready, simulate_tick,
};
use crate::laws::{
    lemma_admitted, lemma_admitted_counters, lemma_admitted_frame, lemma_after_tick, lemma_waits_tick,
    no_input_then_output, waits_ok, stepped,
};
use crate::workload::{
    LoadError, ProcessRecord, RecordView, parse_workload, workload_of, parse_records, parse_history,
    tokens_of, lines_of,
};

verus! {

broadcast use vstd::multiset::group_multiset_axioms, vstd::seq_lib::group_to_multiset_ensures;

/// The ids of the processes at the table indices `q`, in order.
pub open spec fn ids_of(table: Seq<ProcessView>, q: Seq<usize>) -> Seq<u32> {
    q.map_values(|i: usize| table[i as int].id as u32)
}

/// The id of a slot's occupant, or zero for an empty slot.
pub open spec fn slot_id(table: Seq<ProcessView>, s: Option<usize>) -> u32 {
    match s {
        Some(i) => table[i as int].id as u32,
        None => 0,
    }
}

/// The ids held by the four queues.
pub struct QueueContents {
    pub entry: Vec<u32>,
    pub ready: Vec<u32>,
    pub input: Vec<u32>,
    pub output: Vec<u32>,
}

/// What a status report shows: the tick, the ids in the three slots (zero when empty)
/// and the contents of the four queues.
pub struct StatusReport {
    pub tick: u32,
    pub active: u32,
    pub iactive: u32,
    pub oactive: u32,
    pub queues: QueueContents,
}

pub struct StatusView {
    pub tick: nat,
    pub active: u32,
    pub iactive: u32,
    pub oactive: u32,
    pub entry: Seq<u32>,
    pub ready: Seq<u32>,
    pub input: Seq<u32>,
    pub output: Seq<u32>,
}

impl View for StatusReport {
    type V = StatusView;

    open spec fn view(&self) -> StatusView {
        StatusView {
            tick: self.tick as nat,
            active: self.active,
            iactive: self.iactive,
            oactive: self.oactive,
            entry: self.queues.entry@,
            ready: self.queues.ready@,
            input: self.queues.input@,
            output: self.queues.output@,
        }
    }
}

/// The status report of state `m` at tick `t`.
pub open spec fn status_of(m: ManagerView, t: nat) -> StatusView {
    StatusView {
        tick: t,
        active: slot_id(m.table, m.active),
        iactive: slot_id(m.table, m.iactive),
        oactive: slot_id(m.table, m.oactive),
        entry: ids_of(m.table, m.entryq),
        ready: ids_of(m.table, m.readyq),
        input: ids_of(m.table, m.inputq),
        output: ids_of(m.table, m.outputq),
    }
}

/// The run from state `m` at the start of tick `t`: ticks follow one another until the
/// run is over or the tick would pass `MAX_TIME`. Gives the last state, and the tick on
/// which the run ended, if it did.
pub open spec fn run_from(m: ManagerView, t: nat) -> (ManagerView, Option<nat>)
    decreases MAX_TIME + 1 - t,
{
    if t > MAX_TIME {
        (m, None)
    } else {
        let n = m.after_tick(t);
        if n.is_finished() {
            (n, Some(t))
        } else {
            run_from(n, t + 1)
        }
    }
}

/// The status reports of the run from state `m` at tick `t`: one at the start of every
/// tick that is a multiple of `HOW_OFTEN`.
pub open spec fn reports_from(m: ManagerView, t: nat) -> Seq<StatusView>
    decreases MAX_TIME + 1 - t,
{
    if t > MAX_TIME {
        Seq::empty()
    } else {
        let here = if t % (HOW_OFTEN as nat) == 0 {
            seq![status_of(m, t)]
        } else {
            Seq::empty()
        };
        let n = m.after_tick(t);
        if n.is_finished() {
            here
        } else {
            here + reports_from(n, t + 1)
        }
    }
}

/// The average wait time of `n` terminated processes whose wait times add up to `total`,
/// rounded toward zero; none when no process has terminated.
pub open spec fn average_of(total: int, n: nat) -> Option<int> {
    if n == 0 {
        None
    } else if total >= 0 {
        Some(total / (n as int))
    } else {
        Some(-((-total) / (n as int)))
    }
}

/// The average wait time over the terminated processes, rounded toward zero; `None` when
/// no process has terminated.
pub fn average_wait_time(total_wait_time: i64, total_terminated: u32) -> (r: Option<i64>)
    ensures
        match (r, average_of(total_wait_time as int, total_terminated as nat)) {
            (Some(a), Some(b)) => a as int == b,
            (None, None) => true,
            _ => false,
        },
{
    if total_terminated == 0 {
        None
    } else if total_wait_time >= 0 {
        let q: u64 = (total_wait_time as u64) / (total_terminated as u64);
        Some(q as i64)
    } else {
        let magnitude: u64 = (-(total_wait_time + 1)) as u64 + 1;
        let q: u64 = magnitude / (total_terminated as u64);
        if q > i64::MAX as u64 {
            Some(i64::MIN)
        } else {
            Some(-(q as i64))
        }
    }
}

/// The history has at least one instruction and every burst lasts at least one tick.
pub open spec fn valid_history(h: Seq<(Kind, u32)>) -> bool {
    &&& h.len() > 0
    &&& forall|k: int| 0 <= k < h.len() ==> #[trigger] h[k].1 > 0
}

/// `m` with process `p` added to the end of the table and of the entry queue.
pub open spec fn enqueued(m: ManagerView, p: ProcessView) -> ManagerView {
    ManagerView {
        table: m.table.push(p),
        entryq: m.entryq.push(m.table.len() as usize),
        ..m
    }
}

/// Adding a fresh process with the next id keeps every process in exactly one place.
proof fn lemma_enqueued_places(m: ManagerView, p: ProcessView)
    requires
        m.wf(),
        m.table.len() + FIRST_ID < u32::MAX,
        p.id == FIRST_ID + m.table.len(),
        p.is_fresh(),
        p.history_ok(),
    ensures
        enqueued(m, p).each_in_one_place(),
        enqueued(m, p).residence() =~= m.residence().insert(m.table.len() as usize),
        forall|j: int| 0 <= j < enqueued(m, p).table.len() ==> #[trigger] enqueued(m, p).table[j].is_consistent(j),
{
    let n = enqueued(m, p);
    let i = m.table.len() as usize;
    assert(m.residence().count(i) == 0);
    assert(n.residence() =~= m.residence().insert(i));
    assert forall|j: int| 0 <= j < n.table.len() implies #[trigger] n.table[j].is_consistent(j) by {
        if j < m.table.len() {
            assert(m.table[j].is_consistent(j));
        }
    }
    assert forall|j: int| 0 <= j < n.table.len() implies #[trigger] n.residence().count(j as usize) == if n.table[j].is_terminated() {
        0nat
    } else {
        1nat
    } by {
        if j < m.table.len() {
            assert(m.residence().count(j as usize) == if m.table[j].is_terminated() {
                0nat
            } else {
                1nat
            });
        }
    }
    assert forall|x: usize| #[trigger] n.residence().count(x) > 0 implies x < n.table.len() by {
        if x != i {
            assert(m.residence().count(x) > 0);
        }
    }
}

/// Adding a fresh process with the next id keeps what the queues and slots ask of their
/// occupants.
proof fn lemma_enqueued_occupants(m: ManagerView, p: ProcessView)
    requires
        m.wf(),
        p.is_fresh(),
    ensures
        enqueued(m, p).occupants_ok(),
{
    let n = enqueued(m, p);
    assert forall|j: int| 0 <= j < n.entryq.len() implies #[trigger] n.table[n.entryq[j] as int].is_fresh() by {
        if j < m.entryq.len() {
            assert(m.entryq.contains(m.entryq[j]));
            assert(m.residence().count(m.entryq[j]) > 0);
        }
    }
    assert forall|j: int| 0 <= j < n.inputq.len() implies #[trigger] n.table[n.inputq[j] as int].waits_on(Kind::InputIO) by {
        assert(m.inputq.contains(m.inputq[j]));
        assert(m.residence().count(m.inputq[j]) > 0);
    }
    assert forall|j: int| 0 <= j < n.outputq.len() implies #[trigger] n.table[n.outputq[j] as int].waits_on(Kind::OutputIO) by {
        assert(m.outputq.contains(m.outputq[j]));
        assert(m.residence().count(m.outputq[j]) > 0);
    }
    if let Some(a) = m.active {
        assert(m.residence().count(a) > 0);
    }
    if let Some(a) = m.iactive {
        assert(m.residence().count(a) > 0);
    }
    if let Some(a) = m.oactive {
        assert(m.residence().count(a) > 0);
    }
}

/// Adding a fresh process with the next id keeps the state ready at tick `t`.
proof fn lemma_enqueued(m: ManagerView, p: ProcessView, t: nat)
    requires
        m.ready_at(t),
        m.table.len() + FIRST_ID < u32::MAX,
        p.id == FIRST_ID + m.table.len(),
        p.is_fresh(),
        p.history_ok(),
    ensures
        enqueued(m, p).ready_at(t),
{
    let n = enqueued(m, p);
    lemma_enqueued_places(m, p);
    lemma_enqueued_occupants(m, p);
    assert forall|k: Kind| #[trigger] n.device_ok(k, t) by {
        assert(m.device_ok(k, t));
        assert forall|j: int| 0 <= j < n.table.len() && !n.table[j].is_terminated() implies #[trigger] n.table[j].total(k)
                + n.table[j].start_time <= t by {
            if j < m.table.len() {
                assert(m.table[j].total(k) + m.table[j].start_time <= t);
            }
        }
    }
}

impl ProcessManager {
    /// A driver with no processes, empty queues and slots, and all counters at zero.
    pub fn new() -> (m: ProcessManager)
        ensures
            m@.ready_at(0),
            holds_workload(m@, Seq::empty()),
            m@.cpu_idle_status == false,
            m@.total_terminated == 0,
            m@.total_wait_time == 0,
    {
        let m = ProcessManager {
            table: Vec::new(),
            active: None,
            iactive: None,
            oactive: None,
            entryq: VecDeque::new(),
            readyq: VecDeque::new(),
            inputq: VecDeque::new(),
            outputq: VecDeque::new(),
            cpu_idle_status: false,
            cpu_idle_time: 0,
            total_terminated: 0,
            total_wait_time: 0,
            old_active_id: None,
        };
        assert(m@.residence() =~= vstd::multiset::Multiset::empty());
        m
    }
}

/// Adds a process of the workload: it gets the next id (the first is `FIRST_ID`), all
/// counters at zero, and joins the back of the entry queue. Refused, with nothing changed,
/// when the history is empty, a burst lasts no tick, or the ids have run out.
pub fn enqueue_process(manager: &mut ProcessManager, name: String, arrival: u32, history: Vec<(Kind, u32)>) -> (r: Option<u32>)
    requires
        old(manager)@.wf(),
    ensures
        valid_history(history@) && old(manager)@.table.len() + FIRST_ID < u32::MAX ==> {
            &&& r == Some((FIRST_ID + old(manager)@.table.len()) as u32)
            &&& final(manager)@.table.last().name == name@
            &&& final(manager)@.table.last().arrival_time == arrival
            &&& final(manager)@.table.last().history == history@
            &&& final(manager)@ == enqueued(old(manager)@, final(manager)@.table.last())
            &&& final(manager)@.table.last().id == FIRST_ID + old(manager)@.table.len()
            &&& final(manager)@.table.last().is_fresh()
        },
        !(valid_history(history@) && old(manager)@.table.len() + FIRST_ID < u32::MAX) ==> r is None
            && final(manager)@ == old(manager)@,
        forall|t: nat| old(manager)@.ready_at(t) ==> #[trigger] final(manager)@.ready_at(t),
{
    if history.len() == 0 || manager.table.len() >= (u32::MAX - FIRST_ID) as usize {
        return None;
    }
    let mut j: usize = 0;
    while j < history.len()
        invariant
            j <= history@.len(),
            forall|k: int| 0 <= k < j ==> #[trigger] history@[k].1 > 0,
        decreases history@.len() - j,
    {
        if history[j].1 == 0 {
            return None;
        }
        j = j + 1;
    }
    let ghost m = manager@;
    let i = manager.table.len();
    let id = FIRST_ID + i as u32;
    let p = create_process(name, id, arrival, history);
    manager.table.push(p);
    manager.entryq.push_back(i);
    proof {
        assert(manager@.table =~= m.table.push(manager@.table.last()));
        assert forall|t: nat| m.ready_at(t) implies #[trigger] manager@.ready_at(t) by {
            lemma_enqueued(m, manager@.table.last(), t);
        }
    }
    Some(id)
}

/// The ids of the processes at the table indices held by `q`, in queue order.
pub fn dump_queue(manager: &ProcessManager, q: &VecDeque<usize>) -> (r: Vec<u32>)
    requires
        forall|j: int| 0 <= j < q@.len() ==> #[trigger] q@[j] < manager@.table.len(),
    ensures
        r@ == ids_of(manager@.table, q@),
{
    let mut r: Vec<u32> = Vec::new();
    let mut j: usize = 0;
    while j < q.len()
        invariant
            j <= q@.len(),
            forall|k: int| 0 <= k < q@.len() ==> #[trigger] q@[k] < manager@.table.len(),
            r@ == ids_of(manager@.table, q@.subrange(0, j as int)),
        decreases q@.len() - j,
    {
        let i = q[j];
        proof {
            assert(manager@.table[i as int] == manager.table@[i as int]@);
        }
        r.push(manager.table[i].id);
        j = j + 1;
        assert(ids_of(manager@.table, q@.subrange(0, j as int)) =~= ids_of(
            manager@.table,
            q@.subrange(0, j - 1 as int),
        ).push(manager@.table[i as int].id as u32));
    }
    assert(q@.subrange(0, j as int) =~= q@);
    r
}

/// The indices held by the queues of a well-formed state are valid.
proof fn lemma_queue_indices(m: ManagerView)
    requires
        m.wf(),
    ensures
        forall|j: int| 0 <= j < m.entryq.len() ==> #[trigger] m.entryq[j] < m.table.len(),
        forall|j: int| 0 <= j < m.readyq.len() ==> #[trigger] m.readyq[j] < m.table.len(),
        forall|j: int| 0 <= j < m.inputq.len() ==> #[trigger] m.inputq[j] < m.table.len(),
        forall|j: int| 0 <= j < m.outputq.len() ==> #[trigger] m.outputq[j] < m.table.len(),
        m.active matches Some(a) ==> a < m.table.len(),
        m.iactive matches Some(a) ==> a < m.table.len(),
        m.oactive matches Some(a) ==> a < m.table.len(),
{
    assert forall|j: int| 0 <= j < m.entryq.len() implies #[trigger] m.entryq[j] < m.table.len() by {
        assert(m.entryq.contains(m.entryq[j]));
        assert(m.residence().count(m.entryq[j]) > 0);
    }
    assert forall|j: int| 0 <= j < m.readyq.len() implies #[trigger] m.readyq[j] < m.table.len() by {
        assert(m.readyq.contains(m.readyq[j]));
        assert(m.residence().count(m.readyq[j]) > 0);
    }
    assert forall|j: int| 0 <= j < m.inputq.len() implies #[trigger] m.inputq[j] < m.table.len() by {
        assert(m.inputq.contains(m.inputq[j]));
        assert(m.residence().count(m.inputq[j]) > 0);
    }
    assert forall|j: int| 0 <= j < m.outputq.len() implies #[trigger] m.outputq[j] < m.table.len() by {
        assert(m.outputq.contains(m.outputq[j]));
        assert(m.residence().count(m.outputq[j]) > 0);
    }
    if let Some(a) = m.active {
        assert(m.residence().count(a) > 0);
    }
    if let Some(a) = m.iactive {
        assert(m.residence().count(a) > 0);
    }
    if let Some(a) = m.oactive {
        assert(m.residence().count(a) > 0);
    }
}

/// The ids held by each of the four queues.
pub fn dump_all_queues(manager: &ProcessManager) -> (r: QueueContents)
    requires
        manager@.wf(),
    ensures
        r.entry@ == ids_of(manager@.table, manager@.entryq),
        r.ready@ == ids_of(manager@.table, manager@.readyq),
        r.input@ == ids_of(manager@.table, manager@.inputq),
        r.output@ == ids_of(manager@.table, manager@.outputq),
{
    proof {
        lemma_queue_indices(manager@);
    }
    QueueContents {
        entry: dump_queue(manager, &manager.entryq),
        ready: dump_queue(manager, &manager.readyq),
        input: dump_queue(manager, &manager.inputq),
        output: dump_queue(manager, &manager.outputq),
    }
}

/// The id of the occupant of slot `s`, or zero when it is empty.
fn slot_id_of(manager: &ProcessManager, s: Option<usize>) -> (r: u32)
    requires
        s matches Some(i) ==> i < manager@.table.len(),
    ensures
        r == slot_id(manager@.table, s),
{
    match s {
        Some(i) => {
            proof {
                assert(manager@.table[i as int] == manager.table@[i as int]@);
            }
            manager.table[i].id
        },
        None => 0,
    }
}

/// The status report of the current state at tick `timer`.
pub fn status_report(manager: &ProcessManager, timer: u32) -> (r: StatusReport)
    requires
        manager@.wf(),
    ensures
        r@ == status_of(manager@, timer as nat),
{
    proof {
        lemma_queue_indices(manager@);
    }
    StatusReport {
        tick: timer,
        active: slot_id_of(manager, manager.active),
        iactive: slot_id_of(manager, manager.iactive),
        oactive: slot_id_of(manager, manager.oactive),
        queues: dump_all_queues(manager),
    }
}

/// What a run reports at its end: whether it ended on its own (rather than at the safety
/// stop), the last tick, the idle ticks, the terminated processes and their total wait
/// time, and the periodic status reports.
pub struct RunSummary {
    pub completed: bool,
    pub final_tick: u32,
    pub idle_ticks: u32,
    pub terminated: u32,
    pub total_wait: i64,
    pub reports: Vec<StatusReport>,
}

/// Admission at tick zero keeps a state ready at tick zero.
proof fn lemma_first_admission(m: ManagerView)
    requires
        m.ready_at(0),
    ensures
        m.admitted(0).ready_at(0),
{
    lemma_admitted(m, 0);
    lemma_admitted_counters(m, 0);
    assert forall|k: Kind| #[trigger] m.admitted(0).device_ok(k, 0) by {
        assert(m.device_ok(k, 0));
    }
}

/// The simulation driver: admission at tick zero, then one tick after another, each
/// preceded by a status report on ticks that are multiples of `HOW_OFTEN`, until nothing
/// waits for admission and nothing is resident, or the safety stop after `MAX_TIME`.
#[verifier::rlimit(50)]
pub fn run_simulation(manager: &mut ProcessManager) -> (r: RunSummary)
    requires
        old(manager)@.ready_at(0),
    ensures
        final(manager)@ == run_from(old(manager)@.admitted(0), 0).0,
        r.completed == run_from(old(manager)@.admitted(0), 0).1 is Some,
        r.completed ==> r.final_tick == run_from(old(manager)@.admitted(0), 0).1->0,
        !r.completed ==> r.final_tick == MAX_TIME + 1,
        r.idle_ticks == final(manager)@.cpu_idle_time,
        r.terminated == final(manager)@.total_terminated,
        r.total_wait == final(manager)@.total_wait_time,
        r.reports@.map_values(|s: StatusReport| s@) == reports_from(old(manager)@.admitted(0), 0),
        final(manager)@.wf(),
        r.completed ==> final(manager)@.is_finished(),
        no_input_then_output(old(manager)@) && waits_ok(old(manager)@, 0) ==> waits_nonnegative(final(manager)@),
{
    proof {
        lemma_first_admission(manager@);
        if no_input_then_output(manager@) && waits_ok(manager@, 0) {
            lemma_admitted_waits(manager@, 0);
            law_run_wait_times(manager@.admitted(0), 0);
        }
    }
    load_ready(manager, 0);
    let ghost start = manager@;
    let mut timer: u32 = 0;
    let mut reports: Vec<StatusReport> = Vec::new();
    while timer <= MAX_TIME
        invariant
            start == old(manager)@.admitted(0),
            no_input_then_output(old(manager)@) && waits_ok(old(manager)@, 0) ==> waits_nonnegative(
                run_from(start, 0).0,
            ),
            timer <= MAX_TIME + 1,
            manager@.ready_at(timer as nat),
            run_from(manager@, timer as nat) == run_from(start, 0),
            reports@.map_values(|s: StatusReport| s@) + reports_from(manager@, timer as nat)
                == reports_from(start, 0),
        decreases MAX_TIME + 1 - timer,
    {
        let ghost m = manager@;
        let ghost before = reports@.map_values(|s: StatusReport| s@);
        if timer % HOW_OFTEN == 0 {
            let report = status_report(manager, timer);
            reports.push(report);
            assert(reports@.map_values(|s: StatusReport| s@) =~= before.push(report@));
        } else {
            assert(reports@.map_values(|s: StatusReport| s@) =~= before);
        }
        let finished = simulate_tick(manager, timer);
        if finished {
            assert(reports@.map_values(|s: StatusReport| s@) =~= reports_from(start, 0));
            return RunSummary {
                completed: true,
                final_tick: timer,
                idle_ticks: manager.cpu_idle_time,
                terminated: manager.total_terminated,
                total_wait: manager.total_wait_time,
                reports,
            };
        }
        timer = timer + 1;
        assert(reports@.map_values(|s: StatusReport| s@) + reports_from(manager@, timer as nat)
            =~= reports_from(start, 0));
    }
    RunSummary {
        completed: false,
        final_tick: timer,
        idle_ticks: manager.cpu_idle_time,
        terminated: manager.total_terminated,
        total_wait: manager.total_wait_time,
        reports,
    }
}

/// `m` holds the processes of `recs`, in order, none admitted yet: process `k` has id
/// `FIRST_ID + k` and the name, arrival time and history of record `k`, and the entry
/// queue holds them all in order; everything else is empty or zero.
pub open spec fn holds_workload(m: ManagerView, recs: Seq<RecordView>) -> bool {
    &&& m.table.len() == recs.len()
    &&& forall|k: int|
        0 <= k < recs.len() ==> {
            &&& #[trigger] m.table[k].name == recs[k].name
            &&& m.table[k].arrival_time == recs[k].arrival
            &&& m.table[k].history == recs[k].history
            &&& m.table[k].id == FIRST_ID + k
            &&& m.table[k].is_fresh()
        }
    &&& m.entryq.len() == recs.len()
    &&& forall|k: int| 0 <= k < recs.len() ==> #[trigger] m.entryq[k] == k
    &&& m.readyq.len() == 0 && m.inputq.len() == 0 && m.outputq.len() == 0
    &&& m.active is None && m.iactive is None && m.oactive is None
    &&& m.total_terminated == 0 && m.total_wait_time == 0
}

/// A driver holding the processes of `records`, in order, in the entry queue; `None` when
/// a history is empty or has a burst of no ticks, or when there are more records than ids.
pub fn build_manager(records: Vec<ProcessRecord>) -> (r: Option<ProcessManager>)
    ensures
        r is Some <==> (records@.len() + FIRST_ID <= u32::MAX && forall|k: int|
            0 <= k < records@.len() ==> #[trigger] valid_history(records@[k].history@)),
        r matches Some(m) ==> m@.ready_at(0) && holds_workload(m@, records@.map_values(|p: ProcessRecord| p@)),
{
    let ghost rv = records@.map_values(|p: ProcessRecord| p@);
    let ghost all = records@;
    let mut m = ProcessManager::new();
    let n = records.len();
    let mut rest = records;
    let mut k: usize = 0;
    let mut pending: Vec<ProcessRecord> = Vec::new();
    // Reverse the records once, so that popping yields them in order.
    while rest.len() > 0
        invariant
            all == records@,
            pending@.len() + rest@.len() == all.len(),
            forall|j: int| 0 <= j < rest@.len() ==> #[trigger] rest@[j] == all[j],
            forall|j: int| 0 <= j < pending@.len() ==> #[trigger] pending@[j] == all[all.len() - 1 - j],
        decreases rest@.len(),
    {
        let p = rest.pop().unwrap();
        pending.push(p);
    }
    while k < n
        invariant
            all == records@,
            n == all.len(),
            k <= n,
            pending@.len() == n - k,
            forall|j: int| 0 <= j < pending@.len() ==> #[trigger] pending@[j] == all[all.len() - 1 - j],
            rv == all.map_values(|p: ProcessRecord| p@),
            m@.ready_at(0),
            holds_workload(m@, rv.take(k as int)),
            forall|j: int| 0 <= j < k ==> #[trigger] valid_history(all[j].history@),
            k + FIRST_ID <= u32::MAX,
        decreases n - k,
    {
        let p = pending.pop().unwrap();
        assert(p == all[k as int]);
        let ghost before = m@;
        if k + FIRST_ID as usize >= u32::MAX as usize {
            return None;
        }
        match enqueue_process(&mut m, p.name, p.arrival, p.history) {
            None => {
                assert(!valid_history(all[k as int].history@));
                return None;
            },
            Some(_) => {},
        }
        proof {
            let t = m@.table.last();
            assert(rv.take(k + 1) =~= rv.take(k as int).push(rv[k as int]));
            assert(m@.table =~= before.table.push(t));
            assert forall|j: int| 0 <= j < k + 1 implies #[trigger] m@.table[j].name == rv.take(k + 1)[j].name
                && m@.table[j].arrival_time == rv.take(k + 1)[j].arrival
                && m@.table[j].history == rv.take(k + 1)[j].history
                && m@.table[j].id == FIRST_ID + j
                && m@.table[j].is_fresh() by {
                if j < k {
                    assert(before.table[j].name == rv.take(k as int)[j].name);
                }
            }
            assert forall|j: int| 0 <= j < k + 1 implies #[trigger] m@.entryq[j] == j by {
                if j < k {
                    assert(before.entryq[j] == j);
                }
            }
        }
        k = k + 1;
    }
    assert(rv.take(n as int) =~= rv);
    Some(m)
}

/// A history read from a workload has bursts of at least one tick.
proof fn lemma_read_history_valid(toks: Seq<Seq<char>>, line: usize)
    ensures
        parse_history(toks, line) matches Ok(h) ==> forall|k: int| 0 <= k < h.len() ==> #[trigger] h[k].1 > 0,
    decreases toks.len(),
{
    if toks.len() >= 2 {
        lemma_read_history_valid(toks.skip(2), line);
    }
}

/// Every record read from a workload has a valid history.
proof fn lemma_read_records_valid(lines: Seq<Seq<char>>, i: nat)
    ensures
        parse_records(lines, i) matches Ok(s) ==> forall|k: int| 0 <= k < s.len() ==> #[trigger] valid_history(s[k].history),
    decreases lines.len() - i,
{
    if i < lines.len() {
        lemma_read_records_valid(lines, i + 1);
        if i + 1 < lines.len() {
            lemma_read_records_valid(lines, i + 2);
            lemma_read_history_valid(tokens_of(lines[i + 1int]), (i + 2) as usize);
        }
    }
}

/// Reads a workload text and builds a driver holding its processes, in order, in the
/// entry queue. Fails as reading fails, or when there are more processes than ids.
pub fn load_workload(text: &str) -> (r: Result<ProcessManager, LoadError>)
    ensures
        match workload_of(text@) {
            Err(e) => r matches Err(f) && f == e,
            Ok(s) => if s.len() + FIRST_ID <= u32::MAX {
                r matches Ok(m) && m@.ready_at(0) && holds_workload(m@, s)
            } else {
                r matches Err(f) && f == LoadError::TooManyProcesses
            },
        },
{
    proof {
        lemma_read_records_valid(lines_of(text@), 0);
    }
    let records = match parse_workload(text) {
        Err(e) => {
            return Err(e);
        },
        Ok(v) => v,
    };
    let ghost rv = records@.map_values(|p: ProcessRecord| p@);
    proof {
        match workload_of(text@) {
            Ok(s) => {
                assert(rv == s);
                assert forall|k: int| 0 <= k < records@.len() implies #[trigger] valid_history(records@[k].history@) by {
                    assert(rv[k] == records@[k]@);
                    assert(valid_history(s[k].history));
                }
            },
            Err(_) => {},
        }
    }
    match build_manager(records) {
        None => Err(LoadError::TooManyProcesses),
        Some(m) => Ok(m),
    }
}

/// A freshly loaded workload, once admission has run at tick zero, meets what the
/// wait-time law asks of the state it starts from.
pub proof fn lemma_workload_start(m: ManagerView, recs: Seq<RecordView>)
    requires
        m.ready_at(0),
        holds_workload(m, recs),
    ensures
        m.admitted(0).ready_at(0),
        waits_ok(m.admitted(0), 0),
{
    lemma_first_admission(m);
    lemma_admitted_frame(m, 0);
    let n = m.admitted(0);
    assert forall|j: int| 0 <= j < n.table.len() implies if #[trigger] n.table[j].is_terminated() {
        n.table[j].service_total() + n.table[j].start_time <= n.table[j].end_time
    } else {
        n.table[j].service_total() + n.table[j].start_time <= 0
    } by {
        assert(stepped(m.table[j], n.table[j], 0, 0));
        assert(m.table[j].name == recs[j].name);
        assert(m.table[j].is_fresh());
    }
}

/// Every terminated process has a wait time of at least zero.
pub open spec fn waits_nonnegative(m: ManagerView) -> bool {
    forall|j: int| 0 <= j < m.table.len() && #[trigger] m.table[j].is_terminated() ==> m.table[j].wait_time >= 0
}

/// Where no running process has had more service than the ticks since its admission and
/// no terminated one more than the ticks up to its end, every wait time is at least zero.
pub proof fn lemma_waits_nonnegative(m: ManagerView, t: nat)
    requires
        m.wf(),
        waits_ok(m, t),
    ensures
        waits_nonnegative(m),
{
    assert forall|j: int| 0 <= j < m.table.len() && #[trigger] m.table[j].is_terminated() implies m.table[j].wait_time
        >= 0 by {
        assert(m.table[j].is_consistent(j));
    }
}

/// Admission at tick `t` keeps every process within its service bound.
pub proof fn lemma_admitted_waits(m: ManagerView, t: nat)
    requires
        m.wf(),
        waits_ok(m, t),
    ensures
        waits_ok(m.admitted(t), t),
        no_input_then_output(m) ==> no_input_then_output(m.admitted(t)),
{
    lemma_admitted_frame(m, t);
    let n = m.admitted(t);
    assert forall|j: int| 0 <= j < n.table.len() implies if #[trigger] n.table[j].is_terminated() {
        n.table[j].service_total() + n.table[j].start_time <= n.table[j].end_time
    } else {
        n.table[j].service_total() + n.table[j].start_time <= t
    } by {
        assert(stepped(m.table[j], n.table[j], t, 0));
        if m.table[j].is_terminated() {
        } else {
            assert(m.table[j].service_total() + m.table[j].start_time <= t);
        }
    }
    if no_input_then_output(m) {
        assert forall|j: int| 0 <= j < m.table.len() implies #[trigger] n.table[j].history == m.table[j].history by {
            assert(stepped(m.table[j], n.table[j], t, 0));
        }
        crate::laws::lemma_same_histories(m, n);
    }
}

/// At the end of a run, when no history asks for output right after input, every
/// terminated process has a wait time of at least zero.
pub proof fn law_run_wait_times(m: ManagerView, t: nat)
    requires
        m.ready_at(t),
        t <= MAX_TIME + 1,
        no_input_then_output(m),
        waits_ok(m, t),
    ensures
        run_from(m, t).0.wf(),
        waits_nonnegative(run_from(m, t).0),
    decreases MAX_TIME + 1 - t,
{
    if t <= MAX_TIME {
        lemma_after_tick(m, t);
        lemma_waits_tick(m, t);
        let n = m.after_tick(t);
        if n.is_finished() {
            lemma_waits_nonnegative(n, t + 1);
        } else {
            law_run_wait_times(n, t + 1);
        }
    } else {
        lemma_waits_nonnegative(m, t);
    }
}

} // verus!
