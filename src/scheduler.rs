use vstd::prelude::*;
use vstd::multiset::Multiset;
use std::collections::VecDeque;
use crate::process::{Kind, Process, ProcessView, FIRST_ID};
use crate::laws::{
    lemma_admit_head, lemma_admitted, lemma_after_burst, lemma_after_io, lemma_loaded_io,
    lemma_serve_step, lemma_serve_completes, lemma_served_bounds, lemma_slot_occupant,
    lemma_after_active, lemma_loaded_active, lemma_admitted_counters, lemma_busy_compute,
    lemma_after_tick, law_one_device_per_tick, no_input_then_output,
};

verus! {

broadcast use vstd::multiset::group_multiset_axioms, vstd::seq_lib::group_to_multiset_ensures;

/// The most processes that may be resident (admitted and not terminated) at once.
pub const IN_USE: usize = 5;

/// The last tick that the simulation runs before it gives up.
pub const MAX_TIME: u32 = 500;

/// How many ticks lie between two status reports.
pub const HOW_OFTEN: u32 = 25;

/// The driver's state: a table of all processes of the workload, and queues and device
/// slots that hold indices into that table.
pub struct ProcessManager {
    pub table: Vec<Process>,
    pub active: Option<usize>,
    pub iactive: Option<usize>,
    pub oactive: Option<usize>,
    pub entryq: VecDeque<usize>,
    pub readyq: VecDeque<usize>,
    pub inputq: VecDeque<usize>,
    pub outputq: VecDeque<usize>,
    /// Whether the compute device worked on the last tick it ran; cleared on the first
    /// idle tick, so that a stretch of idling can be told from its start.
    pub cpu_idle_status: bool,
    pub cpu_idle_time: u32,
    pub total_terminated: u32,
    /// The sum of the wait times of the terminated processes.
    pub total_wait_time: i64,
    /// The id of the process that left the compute slot during the current tick.
    pub old_active_id: Option<u32>,
}

/// The mathematical picture of a `ProcessManager`.
pub struct ManagerView {
    pub table: Seq<ProcessView>,
    pub active: Option<usize>,
    pub iactive: Option<usize>,
    pub oactive: Option<usize>,
    pub entryq: Seq<usize>,
    pub readyq: Seq<usize>,
    pub inputq: Seq<usize>,
    pub outputq: Seq<usize>,
    pub cpu_idle_status: bool,
    pub cpu_idle_time: nat,
    pub total_terminated: nat,
    pub total_wait_time: int,
    pub old_active_id: Option<nat>,
}

impl View for ProcessManager {
    type V = ManagerView;

    open spec fn view(&self) -> ManagerView {
        ManagerView {
            table: self.table@.map_values(|p: Process| p@),
            active: self.active,
            iactive: self.iactive,
            oactive: self.oactive,
            entryq: self.entryq@,
            readyq: self.readyq@,
            inputq: self.inputq@,
            outputq: self.outputq@,
            cpu_idle_status: self.cpu_idle_status,
            cpu_idle_time: self.cpu_idle_time as nat,
            total_terminated: self.total_terminated as nat,
            total_wait_time: self.total_wait_time as int,
            old_active_id: match self.old_active_id {
                Some(id) => Some(id as nat),
                None => None,
            },
        }
    }
}

/// One for an occupied slot, zero for an empty one.
pub open spec fn slot_len(s: Option<usize>) -> nat {
    if s is Some { 1 } else { 0 }
}

/// The occupant of a slot as a sequence of zero or one index.
pub open spec fn slot_seq(s: Option<usize>) -> Seq<usize> {
    match s {
        Some(i) => seq![i],
        None => Seq::empty(),
    }
}

/// The occupant of a slot as a multiset of zero or one index.
pub open spec fn slot_bag(s: Option<usize>) -> Multiset<usize> {
    match s {
        Some(i) => Multiset::singleton(i),
        None => Multiset::empty(),
    }
}

impl ProcessView {
    /// What holds of every process in the table at all times: its id follows from its
    /// place in the table, the cursor stays inside the history, no device has counted more
    /// bursts than ticks, and once terminated its end time lies within the run, every
    /// device's service fits between its start and end, and its wait time is the elapsed
    /// time less the service received.
    pub open spec fn is_consistent(self, i: int) -> bool {
        &&& self.id == FIRST_ID + i
        &&& self.history_ok()
        &&& self.history_index < self.history.len()
        &&& self.cpu_burst_count <= self.cpu_total
        &&& self.in_burst_count <= self.in_total
        &&& self.out_burst_count <= self.out_total
        &&& if self.is_terminated() {
            &&& self.end_time <= MAX_TIME + 1
            &&& self.start_time + self.cpu_total <= self.end_time
            &&& self.start_time + self.in_total <= self.end_time
            &&& self.start_time + self.out_total <= self.end_time
            &&& self.wait_time == self.end_time - self.start_time - self.service_total()
        } else {
            self.wait_time == 0
        }
    }

    /// A process waiting for or holding I/O device `k`: it is past its first instruction,
    /// which is always served by the compute device, its current instruction targets `k`,
    /// and its countdown on `k` has ticks left.
    pub open spec fn waits_on(self, k: Kind) -> bool {
        &&& self.history_index >= 1
        &&& self.current_kind() == k
        &&& self.timer(k) >= 1
    }
}

impl ManagerView {
    /// The multiset of table indices held by all queues and slots together.
    pub open spec fn residence(self) -> Multiset<usize> {
        self.entryq.to_multiset().add(self.readyq.to_multiset()).add(
            self.inputq.to_multiset(),
        ).add(self.outputq.to_multiset()).add(slot_bag(self.active)).add(
            slot_bag(self.iactive),
        ).add(slot_bag(self.oactive))
    }

    /// Every process of the table sits in exactly one queue or slot, unless it has
    /// terminated, in which case it sits in none; queues and slots hold nothing else.
    pub open spec fn each_in_one_place(self) -> bool {
        &&& forall|i: int|
            0 <= i < self.table.len() ==> #[trigger] self.residence().count(i as usize) == if self.table[i].is_terminated() {
                0nat
            } else {
                1nat
            }
        &&& forall|x: usize| #[trigger] self.residence().count(x) > 0 ==> x < self.table.len()
    }

    /// No more processes are resident than the cap allows.
    pub open spec fn within_capacity(self) -> bool {
        self.resident_count() <= IN_USE
    }

    /// What the queues and slots ask of their occupants: the entry queue holds processes
    /// not yet admitted, the compute slot's occupant has ticks left, and the I/O queues and
    /// slots hold processes waiting on that device.
    pub open spec fn occupants_ok(self) -> bool {
        &&& forall|j: int| 0 <= j < self.entryq.len() ==> #[trigger] self.table[self.entryq[j] as int].is_fresh()
        &&& forall|j: int| 0 <= j < self.inputq.len() ==> #[trigger] self.table[self.inputq[j] as int].waits_on(Kind::InputIO)
        &&& forall|j: int| 0 <= j < self.outputq.len() ==> #[trigger] self.table[self.outputq[j] as int].waits_on(Kind::OutputIO)
        &&& (self.active matches Some(i) ==> self.table[i as int].cpu_timer >= 1)
        &&& (self.iactive matches Some(i) ==> self.table[i as int].waits_on(Kind::InputIO))
        &&& (self.oactive matches Some(i) ==> self.table[i as int].waits_on(Kind::OutputIO))
    }

    /// The driver's state is well formed.
    pub open spec fn wf(self) -> bool {
        &&& self.table.len() + FIRST_ID <= u32::MAX
        &&& forall|i: int| 0 <= i < self.table.len() ==> #[trigger] self.table[i].is_consistent(i)
        &&& self.each_in_one_place()
        &&& self.within_capacity()
        &&& self.occupants_ok()
        &&& self.total_terminated + self.residence().len() == self.table.len()
        &&& -1002 * self.total_terminated <= self.total_wait_time <= 1002 * self.total_terminated
    }

    /// The state is well formed but for process `i`, which has just completed a burst and
    /// left its slot, and sits nowhere until it terminates or joins a queue again.
    pub open spec fn wf_aside(self, i: usize) -> bool {
        &&& i < self.table.len()
        &&& !self.table[i as int].is_terminated()
        &&& self.table.len() + FIRST_ID <= u32::MAX
        &&& forall|j: int| 0 <= j < self.table.len() ==> #[trigger] self.table[j].is_consistent(j)
        &&& forall|j: int|
            0 <= j < self.table.len() ==> #[trigger] self.residence().count(j as usize) == if self.table[j].is_terminated()
                || j == i {
                0nat
            } else {
                1nat
            }
        &&& forall|x: usize| #[trigger] self.residence().count(x) > 0 ==> x < self.table.len()
        &&& self.resident_count() < IN_USE
        &&& self.occupants_ok()
        &&& self.total_terminated + self.residence().len() + 1 == self.table.len()
        &&& -1002 * self.total_terminated <= self.total_wait_time <= 1002 * self.total_terminated
    }

    /// The state at the start of tick `t`: well formed, no process marked as having left
    /// the compute slot, at most one idle tick per tick so far, and no running process has
    /// had more service from any device than the ticks since it was admitted.
    pub open spec fn ready_at(self, t: nat) -> bool {
        &&& self.wf()
        &&& self.old_active_id is None
        &&& self.cpu_idle_time <= t
        &&& forall|k: Kind| #[trigger] self.device_ok(k, t)
    }

    /// No process that is still running has had more than `b - start` ticks of service
    /// from device `k`.
    pub open spec fn device_ok(self, k: Kind, b: nat) -> bool {
        forall|i: int|
            0 <= i < self.table.len() && !self.table[i].is_terminated() ==> #[trigger] self.table[i].total(k)
                + self.table[i].start_time <= b
    }

    /// The slot of device `k`.
    pub open spec fn slot(self, k: Kind) -> Option<usize> {
        match k {
            Kind::Compute => self.active,
            Kind::InputIO => self.iactive,
            Kind::OutputIO => self.oactive,
        }
    }

    /// The queue that feeds device `k`.
    pub open spec fn queue(self, k: Kind) -> Seq<usize> {
        match k {
            Kind::Compute => self.readyq,
            Kind::InputIO => self.inputq,
            Kind::OutputIO => self.outputq,
        }
    }

    pub open spec fn with_slot(self, k: Kind, s: Option<usize>) -> ManagerView {
        match k {
            Kind::Compute => ManagerView { active: s, ..self },
            Kind::InputIO => ManagerView { iactive: s, ..self },
            Kind::OutputIO => ManagerView { oactive: s, ..self },
        }
    }

    pub open spec fn with_queue(self, k: Kind, q: Seq<usize>) -> ManagerView {
        match k {
            Kind::Compute => ManagerView { readyq: q, ..self },
            Kind::InputIO => ManagerView { inputq: q, ..self },
            Kind::OutputIO => ManagerView { outputq: q, ..self },
        }
    }

    pub open spec fn with_process(self, i: usize, p: ProcessView) -> ManagerView {
        ManagerView { table: self.table.update(i as int, p), ..self }
    }

    /// Processes admitted and not terminated: the ready, input and output queues and
    /// the three slots.
    pub open spec fn resident_count(self) -> nat {
        self.readyq.len() + self.inputq.len() + self.outputq.len() + slot_len(self.active)
            + slot_len(self.iactive) + slot_len(self.oactive)
    }

    /// Every place a process can be in, one entry per occupant.
    pub open spec fn places(self) -> Seq<usize> {
        self.entryq + self.readyq + self.inputq + self.outputq + slot_seq(self.active)
            + slot_seq(self.iactive) + slot_seq(self.oactive)
    }

    /// The head of the entry queue may move to the ready queue at tick `t`: there is room
    /// under the cap and its arrival time has come.
    pub open spec fn can_admit(self, t: nat) -> bool {
        &&& self.entryq.len() > 0
        &&& self.resident_count() < IN_USE
        &&& self.table[self.entryq[0] as int].arrival_time <= t
    }

    /// The head of the entry queue moved to the back of the ready queue, started at `t`.
    pub open spec fn admit_head(self, t: nat) -> ManagerView {
        let i = self.entryq[0];
        ManagerView {
            entryq: self.entryq.drop_first(),
            readyq: self.readyq.push(i),
            ..self.with_process(i, ProcessView { start_time: t, ..self.table[i as int] })
        }
    }

    /// Admission at tick `t`: heads of the entry queue move to the ready queue, in order,
    /// until the entry queue is empty, the cap is met, or the head has not arrived yet.
    pub open spec fn admitted(self, t: nat) -> ManagerView
        decreases self.entryq.len(),
    {
        if self.can_admit(t) {
            self.admit_head(t).admitted(t)
        } else {
            self
        }
    }

    /// What follows the completion of a burst by process `i` at tick `t`, once it has left
    /// its slot: on its last instruction it terminates, with its end and wait times, and
    /// the run's counters take it in; otherwise its cursor moves on, the countdown of the
    /// next instruction's device is set to that instruction's duration, and it joins the
    /// back of that device's queue.
    pub open spec fn after_burst(self, i: usize, t: nat) -> ManagerView {
        let p = self.table[i as int];
        if p.at_last() {
            let end = t + 1;
            let wait = end - p.start_time - p.service_total();
            ManagerView {
                total_terminated: self.total_terminated + 1,
                total_wait_time: self.total_wait_time + wait,
                ..self.with_process(i, ProcessView { end_time: end, wait_time: wait, ..p })
            }
        } else {
            let q = ProcessView { history_index: p.history_index + 1, ..p };
            let k = q.current_kind();
            self.with_process(i, q.with_timer(k, q.current_duration())).with_queue(
                k,
                self.queue(k).push(i),
            )
        }
    }

    /// The compute slot before the compute device works at tick `t`: when it is empty,
    /// admission runs, then the head of the ready queue (if any) takes the slot with its
    /// countdown set to its current instruction's duration.
    pub open spec fn loaded_active(self, t: nat) -> ManagerView {
        if self.active is Some {
            self
        } else {
            let m = self.admitted(t);
            if m.readyq.len() == 0 {
                m
            } else {
                let i = m.readyq[0];
                let p = m.table[i as int];
                ManagerView {
                    readyq: m.readyq.drop_first(),
                    active: Some(i),
                    ..m.with_process(i, p.with_timer(Kind::Compute, p.current_duration()))
                }
            }
        }
    }

    /// One tick of service on device `k` to the occupant `i` of its slot at tick `t`; when
    /// that completes the burst, the process leaves the slot and moves on.
    pub open spec fn serve_slot(self, k: Kind, i: usize, t: nat) -> ManagerView {
        let p = self.table[i as int].served(k);
        if p.timer(k) == 0 {
            self.with_process(i, p.burst_done(k)).with_slot(k, None).after_burst(i, t)
        } else {
            self.with_process(i, p)
        }
    }

    /// The compute device's work at tick `t`: an empty slot counts as an idle tick when no
    /// process is resident (one waiting on an I/O device keeps the tick from being idle);
    /// otherwise its occupant is served, and on completing its burst it is marked as the
    /// process that left the compute slot in this tick.
    pub open spec fn after_active(self, t: nat) -> ManagerView {
        let m = self.loaded_active(t);
        match m.active {
            None => if m.resident_count() == 0 {
                ManagerView { cpu_idle_time: m.cpu_idle_time + 1, cpu_idle_status: false, ..m }
            } else {
                m
            },
            Some(i) => {
                let n = ManagerView { cpu_idle_status: true, ..m }.serve_slot(Kind::Compute, i, t);
                if m.table[i as int].served(Kind::Compute).cpu_timer == 0 {
                    ManagerView { old_active_id: Some(m.table[i as int].id), ..n }
                } else {
                    n
                }
            },
        }
    }

    /// The slot of I/O device `k` before it works: when empty, the head of its queue (if
    /// any) takes it.
    pub open spec fn loaded_io(self, k: Kind) -> ManagerView {
        if self.slot(k) is None && self.queue(k).len() > 0 {
            self.with_slot(k, Some(self.queue(k)[0])).with_queue(k, self.queue(k).drop_first())
        } else {
            self
        }
    }

    /// The work of I/O device `k` at tick `t`. An occupant that left the compute slot in
    /// this tick gets no service.
    pub open spec fn after_io(self, k: Kind, t: nat) -> ManagerView {
        let m = self.loaded_io(k);
        match m.slot(k) {
            None => m,
            Some(i) => {
                if m.old_active_id == Some(m.table[i as int].id) {
                    m
                } else {
                    m.serve_slot(k, i, t)
                }
            },
        }
    }

    /// One whole tick `t`: the compute device, then input, then output; then the mark of
    /// the process that left the compute slot is cleared.
    pub open spec fn after_tick(self, t: nat) -> ManagerView {
        let m = self.after_active(t).after_io(Kind::InputIO, t).after_io(Kind::OutputIO, t);
        ManagerView { old_active_id: None, ..m }
    }

    /// The run is over: nothing waits for admission and nothing is resident.
    pub open spec fn is_finished(self) -> bool {
        self.entryq.len() == 0 && self.resident_count() == 0
    }
}

/// The number of resident processes: the ready, input and output queues plus the
/// occupied slots.
pub fn get_total_processes(manager: &ProcessManager) -> (r: usize)
    requires
        manager@.resident_count() <= IN_USE,
    ensures
        r == manager@.resident_count(),
{
    let mut amount: usize = manager.readyq.len() + manager.inputq.len();
    amount = amount + manager.outputq.len();
    if manager.active.is_some() {
        amount = amount + 1;
    }
    if manager.iactive.is_some() {
        amount = amount + 1;
    }
    if manager.oactive.is_some() {
        amount = amount + 1;
    }
    amount
}

/// The admission controller at tick `timer`: moves heads of the entry queue to the back of
/// the ready queue, starting each at `timer`, while there is room under the cap and the
/// head has arrived. An entry that has not arrived yet holds back those behind it.
pub fn load_ready(manager: &mut ProcessManager, timer: u32)
    requires
        old(manager)@.wf(),
    ensures
        final(manager)@ == old(manager)@.admitted(timer as nat),
        final(manager)@.wf(),
{
    let ghost t = timer as nat;
    proof {
        lemma_admitted(manager@, t);
    }
    loop
        invariant
            t == timer as nat,
            manager@.wf(),
            manager@.admitted(t) == old(manager)@.admitted(t),
        decreases manager.entryq.len(),
    {
        if manager.entryq.len() == 0 || get_total_processes(manager) >= IN_USE {
            assert(manager@.admitted(t) == manager@);
            return;
        }
        let i = manager.entryq[0];
        proof {
            assert(manager@.entryq.contains(i));
            assert(manager@.residence().count(i) > 0);
            assert(manager@.table[i as int] == manager.table@[i as int]@);
        }
        if manager.table[i].arrival_time > timer {
            assert(manager@.admitted(t) == manager@);
            return;
        }
        proof {
            lemma_admit_head(manager@, t);
        }
        let ghost before = manager@;
        manager.entryq.pop_front();
        manager.table[i].start_time = timer;
        manager.readyq.push_back(i);
        assert(manager@.table =~= before.admit_head(t).table);
        assert(manager@ == before.admit_head(t));
    }
}

impl ProcessManager {
    /// The slot of device `k`.
    fn slot_of(&self, k: Kind) -> (r: Option<usize>)
        ensures
            r == self@.slot(k),
    {
        match k {
            Kind::Compute => self.active,
            Kind::InputIO => self.iactive,
            Kind::OutputIO => self.oactive,
        }
    }

    /// Puts `s` in the slot of device `k`.
    fn set_slot(&mut self, k: Kind, s: Option<usize>)
        ensures
            final(self)@ == old(self)@.with_slot(k, s),
    {
        match k {
            Kind::Compute => self.active = s,
            Kind::InputIO => self.iactive = s,
            Kind::OutputIO => self.oactive = s,
        }
    }

    /// Appends `i` to the queue of device `k`.
    fn push_queue(&mut self, k: Kind, i: usize)
        ensures
            final(self)@ == old(self)@.with_queue(k, old(self)@.queue(k).push(i)),
    {
        match k {
            Kind::Compute => self.readyq.push_back(i),
            Kind::InputIO => self.inputq.push_back(i),
            Kind::OutputIO => self.outputq.push_back(i),
        }
    }

    /// Takes the head off the queue of device `k`, if there is one.
    fn pop_queue(&mut self, k: Kind) -> (r: Option<usize>)
        ensures
            old(self)@.queue(k).len() == 0 ==> r is None && final(self)@ == old(self)@,
            old(self)@.queue(k).len() > 0 ==> r == Some(old(self)@.queue(k)[0]) && final(self)@
                == old(self)@.with_queue(k, old(self)@.queue(k).drop_first()),
    {
        match k {
            Kind::Compute => self.readyq.pop_front(),
            Kind::InputIO => self.inputq.pop_front(),
            Kind::OutputIO => self.outputq.pop_front(),
        }
    }
}

/// The transition function: process `i` has just completed a burst at tick `timer` and left
/// its slot. On its last instruction it terminates: its end time is the next tick, its
/// wait time is the elapsed time less the service it received, and the run counts it.
/// Otherwise its cursor moves to the next instruction, whose device's countdown is set to
/// that instruction's duration, and it joins the back of that device's queue.
pub fn update_work_status(manager: &mut ProcessManager, timer: u32, i: usize)
    requires
        old(manager)@.wf_aside(i),
        timer <= MAX_TIME,
        forall|k: Kind| #[trigger] old(manager)@.device_ok(k, timer as nat + 1),
    ensures
        final(manager)@ == old(manager)@.after_burst(i, timer as nat),
        final(manager)@.wf(),
        final(manager)@.each_in_one_place(),
        final(manager)@.within_capacity(),
        old(manager)@.table[i as int].at_last() ==> {
            &&& final(manager)@.table[i as int].end_time == timer + 1
            &&& final(manager)@.table[i as int].wait_time == final(manager)@.table[i as int].end_time
                - final(manager)@.table[i as int].start_time - final(manager)@.table[i as int].cpu_total
                - final(manager)@.table[i as int].in_total - final(manager)@.table[i as int].out_total
            &&& final(manager)@.total_terminated == old(manager)@.total_terminated + 1
            &&& final(manager)@.total_wait_time == old(manager)@.total_wait_time
                + final(manager)@.table[i as int].wait_time
            &&& final(manager)@.resident_count() == old(manager)@.resident_count()
        },
        !old(manager)@.table[i as int].at_last() ==> final(manager)@.resident_count()
            == old(manager)@.resident_count() + 1 && final(manager)@.entryq == old(manager)@.entryq,
{
    proof {
        lemma_after_burst(manager@, i, timer as nat);
        assert(manager@.table[i as int] == manager.table@[i as int]@);
        assert(manager@.table[i as int].is_consistent(i as int));
        assert(manager.table@[i as int].history_index < manager.table@[i as int].history@.len());
    }
    let ghost before = manager@;
    let cursor = manager.table[i].history_index;
    let len = manager.table[i].history.len();
    if cursor + 1 == len {
        let end: u32 = timer + 1;
        proof {
            assert(before.device_ok(Kind::Compute, timer as nat + 1));
            assert(before.device_ok(Kind::InputIO, timer as nat + 1));
            assert(before.device_ok(Kind::OutputIO, timer as nat + 1));
        }
        let wait: i64 = end as i64 - manager.table[i].start_time as i64
            - manager.table[i].cpu_total as i64 - manager.table[i].io_total.0 as i64
            - manager.table[i].io_total.1 as i64;
        manager.table[i].end_time = end;
        manager.table[i].wait_time = wait;
        manager.total_terminated = manager.total_terminated + 1;
        manager.total_wait_time = manager.total_wait_time + wait;
        assert(manager@.table =~= before.after_burst(i, timer as nat).table);
    } else {
        let idx = cursor + 1;
        manager.table[i].history_index = idx;
        assert(manager@.table[i as int] == manager.table@[i as int]@);
        let (k, d) = manager.table[i].history[idx];
        manager.table[i].set_timer(k, d);
        manager.push_queue(k, i);
        assert(manager@.table =~= before.after_burst(i, timer as nat).table);
    }
}

/// One tick of service on device `k` to the occupant `i` of its slot at tick `timer`; when
/// that completes the burst, the process leaves the slot and the transition function
/// moves it on.
#[verifier::rlimit(50)]
fn serve_occupant(manager: &mut ProcessManager, timer: u32, k: Kind, i: usize)
    requires
        old(manager)@.wf(),
        old(manager)@.slot(k) == Some(i),
        old(manager)@.table[i as int].timer(k) >= 1,
        timer <= MAX_TIME,
        old(manager)@.device_ok(k, timer as nat),
        forall|kk: Kind| #[trigger] old(manager)@.device_ok(kk, timer as nat + 1),
    ensures
        final(manager)@ == old(manager)@.serve_slot(k, i, timer as nat),
        final(manager)@.wf(),
{
    let ghost t = timer as nat;
    let ghost m = manager@;
    proof {
        lemma_serve_step(m, k, i, t);
        lemma_slot_occupant(m, k, i);
        assert(m.table[i as int] == manager.table@[i as int]@);
        assert(m.table[i as int].is_consistent(i as int));
        assert(m.table[i as int].total(k) + m.table[i as int].start_time <= t);
    }
    manager.table[i].serve(k);
    if manager.table[i].timer_of(k) == 0 {
        manager.table[i].count_burst(k);
        manager.set_slot(k, None);
        let ghost q = m.table[i as int].served(k).burst_done(k);
        assert(manager@.table =~= m.with_process(i, q).table);
        assert(manager@ == m.with_process(i, q).with_slot(k, None));
        proof {
            lemma_serve_completes(m, k, i);
            lemma_served_bounds(m, manager@, k, i, t);
            assert forall|kk: Kind| #[trigger] manager@.device_ok(kk, t + 1) by {
                if kk != k {
                    assert(m.device_ok(kk, t + 1));
                }
            }
        }
        update_work_status(manager, timer, i);
    } else {
        assert(manager@.table =~= m.with_process(i, m.table[i as int].served(k)).table);
    }
}

/// The work of I/O device `k` at tick `timer`.
fn process_io(manager: &mut ProcessManager, timer: u32, k: Kind)
    requires
        old(manager)@.wf(),
        k != Kind::Compute,
        timer <= MAX_TIME,
        old(manager)@.device_ok(k, timer as nat),
        forall|kk: Kind| #[trigger] old(manager)@.device_ok(kk, timer as nat + 1),
    ensures
        final(manager)@ == old(manager)@.after_io(k, timer as nat),
{
    let ghost m = manager@;
    proof {
        lemma_loaded_io(m, k);
    }
    if manager.slot_of(k).is_none() {
        match manager.pop_queue(k) {
            Some(i) => manager.set_slot(k, Some(i)),
            None => {},
        }
    }
    assert(manager@ == m.loaded_io(k));
    match manager.slot_of(k) {
        None => {},
        Some(i) => {
            proof {
                lemma_slot_occupant(manager@, k, i);
                assert(manager@.table[i as int] == manager.table@[i as int]@);
            }
            let marked = match manager.old_active_id {
                Some(id) => id == manager.table[i].id,
                None => false,
            };
            if !marked {
                proof {
                    assert(manager@.occupants_ok());
                    assert forall|kk: Kind| #[trigger] manager@.device_ok(kk, timer as nat + 1) by {
                        assert(m.device_ok(kk, timer as nat + 1));
                    }
                }
                serve_occupant(manager, timer, k, i);
            }
        },
    }
}

/// The input device's work at tick `timer`: an empty slot takes the head of the input
/// queue; the occupant, unless it left the compute slot in this same tick, gets one tick
/// of service, and on completing its burst moves on through the transition function.
pub fn process_iactive(manager: &mut ProcessManager, timer: u32)
    requires
        old(manager)@.wf(),
        timer <= MAX_TIME,
        old(manager)@.device_ok(Kind::InputIO, timer as nat),
        forall|kk: Kind| #[trigger] old(manager)@.device_ok(kk, timer as nat + 1),
    ensures
        final(manager)@ == old(manager)@.after_io(Kind::InputIO, timer as nat),
        final(manager)@.wf(),
        final(manager)@.each_in_one_place(),
        final(manager)@.within_capacity(),
        final(manager)@.device_ok(Kind::InputIO, timer as nat + 1),
        forall|kk: Kind, b: nat|
            kk != Kind::InputIO && old(manager)@.device_ok(kk, b) ==> #[trigger] final(manager)@.device_ok(kk, b),
{
    proof {
        lemma_after_io(manager@, Kind::InputIO, timer as nat);
    }
    process_io(manager, timer, Kind::InputIO);
}

/// The output device's work at tick `timer`, in the same way as the input device's.
pub fn process_oactive(manager: &mut ProcessManager, timer: u32)
    requires
        old(manager)@.wf(),
        timer <= MAX_TIME,
        old(manager)@.device_ok(Kind::OutputIO, timer as nat),
        forall|kk: Kind| #[trigger] old(manager)@.device_ok(kk, timer as nat + 1),
    ensures
        final(manager)@ == old(manager)@.after_io(Kind::OutputIO, timer as nat),
        final(manager)@.wf(),
        final(manager)@.each_in_one_place(),
        final(manager)@.within_capacity(),
        final(manager)@.device_ok(Kind::OutputIO, timer as nat + 1),
        forall|kk: Kind, b: nat|
            kk != Kind::OutputIO && old(manager)@.device_ok(kk, b) ==> #[trigger] final(manager)@.device_ok(kk, b),
{
    proof {
        lemma_after_io(manager@, Kind::OutputIO, timer as nat);
    }
    process_io(manager, timer, Kind::OutputIO);
}

/// The compute device's work at tick `timer`. An empty slot first runs admission, then takes
/// the head of the ready queue with its countdown set to the duration of its current
/// instruction. If the slot is still empty the tick counts as idle. Otherwise the occupant
/// gets one tick of service; on completing its burst it is marked as having left the
/// compute slot in this tick and moves on through the transition function.
#[verifier::rlimit(80)]
pub fn process_active(manager: &mut ProcessManager, timer: u32)
    requires
        old(manager)@.wf(),
        timer <= MAX_TIME,
        old(manager)@.cpu_idle_time <= timer,
        old(manager)@.device_ok(Kind::Compute, timer as nat),
        forall|kk: Kind| #[trigger] old(manager)@.device_ok(kk, timer as nat + 1),
    ensures
        final(manager)@ == old(manager)@.after_active(timer as nat),
        final(manager)@.wf(),
        final(manager)@.each_in_one_place(),
        final(manager)@.within_capacity(),
        final(manager)@.cpu_idle_time <= timer + 1,
        final(manager)@.device_ok(Kind::Compute, timer as nat + 1),
        forall|kk: Kind, b: nat|
            kk != Kind::Compute && timer <= b && old(manager)@.device_ok(kk, b)
                ==> #[trigger] final(manager)@.device_ok(kk, b),
{
    let ghost t = timer as nat;
    let ghost m = manager@;
    proof {
        lemma_after_active(m, t);
        lemma_loaded_active(m, t);
        lemma_admitted_counters(m, t);
    }
    if manager.active.is_none() {
        load_ready(manager, timer);
        let ghost m1 = manager@;
        match manager.readyq.pop_front() {
            Some(i) => {
                proof {
                    assert(m1.readyq.contains(i));
                    assert(m1.residence().count(i) > 0);
                    assert(m1.table[i as int] == manager.table@[i as int]@);
                    assert(m1.table[i as int].is_consistent(i as int));
                }
                let cursor = manager.table[i].history_index;
                let d = manager.table[i].history[cursor].1;
                manager.table[i].set_timer(Kind::Compute, d);
                manager.active = Some(i);
                assert(manager@.table =~= m.loaded_active(t).table);
            },
            None => {},
        }
    }
    assert(manager@ == m.loaded_active(t));
    match manager.active {
        None => {
            if get_total_processes(manager) == 0 {
                manager.cpu_idle_time = manager.cpu_idle_time + 1;
                manager.cpu_idle_status = false;
            }
        },
        Some(i) => {
            manager.cpu_idle_status = true;
            proof {
                lemma_busy_compute(m, t);
                lemma_slot_occupant(manager@, Kind::Compute, i);
                assert(manager@.table[i as int] == manager.table@[i as int]@);
            }
            let completes = manager.table[i].cpu_timer == 1;
            let id = manager.table[i].id;
            serve_occupant(manager, timer, Kind::Compute, i);
            if completes {
                manager.old_active_id = Some(id);
            }
        },
    }
}

/// One tick of the simulation at tick `timer`: the compute device, then the input device,
/// then the output device; then the mark of the process that left the compute slot is
/// cleared. Returns whether the run is over: nothing waits for admission and nothing is
/// resident.
#[verifier::rlimit(50)]
pub fn simulate_tick(manager: &mut ProcessManager, timer: u32) -> (finished: bool)
    requires
        old(manager)@.ready_at(timer as nat),
        timer <= MAX_TIME,
    ensures
        final(manager)@ == old(manager)@.after_tick(timer as nat),
        final(manager)@.ready_at(timer as nat + 1),
        finished == final(manager)@.is_finished(),
        no_input_then_output(old(manager)@) ==> forall|j: int|
            0 <= j < old(manager)@.table.len() ==> #[trigger] final(manager)@.table[j].service_total()
                <= old(manager)@.table[j].service_total() + 1,
{
    let ghost t = timer as nat;
    let ghost m = manager@;
    proof {
        lemma_after_tick(m, t);
        if no_input_then_output(m) {
            law_one_device_per_tick(m, t);
        }
        assert forall|kk: Kind| #[trigger] m.device_ok(kk, t + 1) by {
            assert(m.device_ok(kk, t));
            crate::laws::lemma_device_ok_mono(m, kk, t, t + 1);
        }
    }
    process_active(manager, timer);
    let ghost m1 = manager@;
    proof {
        assert(m.device_ok(Kind::InputIO, t));
        assert(m.device_ok(Kind::InputIO, t + 1));
        assert(m.device_ok(Kind::OutputIO, t + 1));
        assert(m1.device_ok(Kind::InputIO, t));
        assert(m1.device_ok(Kind::InputIO, t + 1));
        assert(m1.device_ok(Kind::OutputIO, t + 1));
        assert forall|kk: Kind| #[trigger] m1.device_ok(kk, t + 1) by {
            if kk != Kind::Compute {
                assert(m.device_ok(kk, t + 1));
            }
        }
    }
    process_iactive(manager, timer);
    let ghost m2 = manager@;
    proof {
        assert(m.device_ok(Kind::OutputIO, t));
        assert(m1.device_ok(Kind::OutputIO, t));
        assert(m2.device_ok(Kind::OutputIO, t));
        assert(m2.device_ok(Kind::OutputIO, t + 1));
        assert forall|kk: Kind| #[trigger] m2.device_ok(kk, t + 1) by {
            if kk != Kind::InputIO {
                assert(m1.device_ok(kk, t + 1));
            }
        }
    }
    process_oactive(manager, timer);
    manager.old_active_id = None;
    manager.entryq.len() == 0 && get_total_processes(manager) == 0
}

} // verus!
