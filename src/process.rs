use vstd::prelude::*;

verus! {

/// The id handed to the first process of a workload; later ones count up from it.
pub const FIRST_ID: u32 = 101;

/// The device that an instruction of a process's history targets.
#[derive(Clone, Copy, Debug, PartialEq, Eq, Structural)]
pub enum Kind {
    Compute,
    InputIO,
    OutputIO,
}

/// One simulated program: identity, history of bursts, per-device progress and timing.
///
/// The per-device triples (`*_timer`, `*_total`, `*_burst_count`) hold the countdown of
/// the burst in progress, the ticks of service received so far, and the number of
/// completed bursts. In the I/O pairs, `.0` is the input device and `.1` the output one.
pub struct Process {
    pub name: String,
    pub id: u32,
    pub arrival_time: u32,
    pub start_time: u32,
    pub history: Vec<(Kind, u32)>,
    pub history_index: usize,
    pub cpu_timer: u32,
    pub cpu_total: u32,
    pub cpu_burst_count: u32,
    pub io_timer: (u32, u32),
    pub io_total: (u32, u32),
    pub io_burst_count: (u32, u32),
    pub end_time: u32,
    pub wait_time: i64,
}

/// The mathematical picture of a `Process`, with the per-device values split by device.
pub struct ProcessView {
    pub name: Seq<char>,
    pub id: nat,
    pub arrival_time: nat,
    pub start_time: nat,
    pub history: Seq<(Kind, u32)>,
    pub history_index: nat,
    pub cpu_timer: nat,
    pub cpu_total: nat,
    pub cpu_burst_count: nat,
    pub in_timer: nat,
    pub in_total: nat,
    pub in_burst_count: nat,
    pub out_timer: nat,
    pub out_total: nat,
    pub out_burst_count: nat,
    pub end_time: nat,
    pub wait_time: int,
}

impl View for Process {
    type V = ProcessView;

    open spec fn view(&self) -> ProcessView {
        ProcessView {
            name: self.name@,
            id: self.id as nat,
            arrival_time: self.arrival_time as nat,
            start_time: self.start_time as nat,
            history: self.history@,
            history_index: self.history_index as nat,
            cpu_timer: self.cpu_timer as nat,
            cpu_total: self.cpu_total as nat,
            cpu_burst_count: self.cpu_burst_count as nat,
            in_timer: self.io_timer.0 as nat,
            in_total: self.io_total.0 as nat,
            in_burst_count: self.io_burst_count.0 as nat,
            out_timer: self.io_timer.1 as nat,
            out_total: self.io_total.1 as nat,
            out_burst_count: self.io_burst_count.1 as nat,
            end_time: self.end_time as nat,
            wait_time: self.wait_time as int,
        }
    }
}

impl ProcessView {
    /// The countdown of the burst in progress on device `k`.
    pub open spec fn timer(self, k: Kind) -> nat {
        match k {
            Kind::Compute => self.cpu_timer,
            Kind::InputIO => self.in_timer,
            Kind::OutputIO => self.out_timer,
        }
    }

    /// The ticks of service received on device `k`.
    pub open spec fn total(self, k: Kind) -> nat {
        match k {
            Kind::Compute => self.cpu_total,
            Kind::InputIO => self.in_total,
            Kind::OutputIO => self.out_total,
        }
    }

    /// The number of bursts completed on device `k`.
    pub open spec fn bursts(self, k: Kind) -> nat {
        match k {
            Kind::Compute => self.cpu_burst_count,
            Kind::InputIO => self.in_burst_count,
            Kind::OutputIO => self.out_burst_count,
        }
    }

    /// The ticks of service received on all three devices.
    pub open spec fn service_total(self) -> nat {
        self.cpu_total + self.in_total + self.out_total
    }

    /// This process with the countdown of device `k` set to `v`.
    pub open spec fn with_timer(self, k: Kind, v: nat) -> ProcessView {
        match k {
            Kind::Compute => ProcessView { cpu_timer: v, ..self },
            Kind::InputIO => ProcessView { in_timer: v, ..self },
            Kind::OutputIO => ProcessView { out_timer: v, ..self },
        }
    }

    /// This process after one tick of service on device `k`: the countdown drops by one
    /// and the total grows by one.
    pub open spec fn served(self, k: Kind) -> ProcessView {
        match k {
            Kind::Compute => ProcessView {
                cpu_timer: (self.cpu_timer - 1) as nat,
                cpu_total: self.cpu_total + 1,
                ..self
            },
            Kind::InputIO => ProcessView {
                in_timer: (self.in_timer - 1) as nat,
                in_total: self.in_total + 1,
                ..self
            },
            Kind::OutputIO => ProcessView {
                out_timer: (self.out_timer - 1) as nat,
                out_total: self.out_total + 1,
                ..self
            },
        }
    }

    /// This process with one more completed burst on device `k`.
    pub open spec fn burst_done(self, k: Kind) -> ProcessView {
        match k {
            Kind::Compute => ProcessView { cpu_burst_count: self.cpu_burst_count + 1, ..self },
            Kind::InputIO => ProcessView { in_burst_count: self.in_burst_count + 1, ..self },
            Kind::OutputIO => ProcessView { out_burst_count: self.out_burst_count + 1, ..self },
        }
    }

    /// The kind of the instruction under the cursor.
    pub open spec fn current_kind(self) -> Kind {
        self.history[self.history_index as int].0
    }

    /// The duration of the instruction under the cursor.
    pub open spec fn current_duration(self) -> nat {
        self.history[self.history_index as int].1 as nat
    }

    /// The kind of the instruction after the one under the cursor.
    pub open spec fn next_kind(self) -> Kind {
        self.history[self.history_index + 1int].0
    }

    /// The cursor stands on the last instruction.
    pub open spec fn at_last(self) -> bool {
        self.history_index + 1 == self.history.len()
    }

    /// A process has terminated once its end time is set; end times are at least one.
    pub open spec fn is_terminated(self) -> bool {
        self.end_time > 0
    }

    /// The history is non-empty and every burst lasts at least one tick.
    pub open spec fn history_ok(self) -> bool {
        &&& self.history.len() > 0
        &&& forall|k: int| 0 <= k < self.history.len() ==> #[trigger] self.history[k].1 > 0
    }

    /// The state of a process that has not been admitted yet.
    pub open spec fn is_fresh(self) -> bool {
        &&& self.start_time == 0
        &&& self.history_index == 0
        &&& self.cpu_timer == 0
        &&& self.cpu_total == 0
        &&& self.cpu_burst_count == 0
        &&& self.in_timer == 0
        &&& self.in_total == 0
        &&& self.in_burst_count == 0
        &&& self.out_timer == 0
        &&& self.out_total == 0
        &&& self.out_burst_count == 0
        &&& self.end_time == 0
        &&& self.wait_time == 0
    }
}

/// A process with the given identity and history, admitted nowhere yet, with all
/// counters at zero.
pub fn create_process(
    process_name: String,
    process_id: u32,
    arrival: u32,
    instructions: Vec<(Kind, u32)>,
) -> (p: Process)
    ensures
        p@.name == process_name@,
        p@.id == process_id,
        p@.arrival_time == arrival,
        p@.history == instructions@,
        p@.is_fresh(),
{
    Process {
        name: process_name,
        id: process_id,
        arrival_time: arrival,
        start_time: 0,
        history: instructions,
        history_index: 0,
        cpu_timer: 0,
        cpu_total: 0,
        cpu_burst_count: 0,
        io_timer: (0, 0),
        io_total: (0, 0),
        io_burst_count: (0, 0),
        end_time: 0,
        wait_time: 0,
    }
}

impl Process {
    /// The countdown of the burst in progress on device `k`.
    pub(crate) fn timer_of(&self, k: Kind) -> (r: u32)
        ensures
            r == self@.timer(k),
    {
        match k {
            Kind::Compute => self.cpu_timer,
            Kind::InputIO => self.io_timer.0,
            Kind::OutputIO => self.io_timer.1,
        }
    }

    /// Sets the countdown of device `k` to `v`.
    pub(crate) fn set_timer(&mut self, k: Kind, v: u32)
        ensures
            final(self)@ == old(self)@.with_timer(k, v as nat),
    {
        match k {
            Kind::Compute => self.cpu_timer = v,
            Kind::InputIO => self.io_timer.0 = v,
            Kind::OutputIO => self.io_timer.1 = v,
        }
    }

    /// One tick of service on device `k`.
    pub(crate) fn serve(&mut self, k: Kind)
        requires
            old(self)@.timer(k) >= 1,
            old(self)@.total(k) < u32::MAX,
        ensures
            final(self)@ == old(self)@.served(k),
    {
        match k {
            Kind::Compute => {
                self.cpu_timer = self.cpu_timer - 1;
                self.cpu_total = self.cpu_total + 1;
            },
            Kind::InputIO => {
                self.io_timer.0 = self.io_timer.0 - 1;
                self.io_total.0 = self.io_total.0 + 1;
            },
            Kind::OutputIO => {
                self.io_timer.1 = self.io_timer.1 - 1;
                self.io_total.1 = self.io_total.1 + 1;
            },
        }
    }

    /// Counts one more completed burst on device `k`.
    pub(crate) fn count_burst(&mut self, k: Kind)
        requires
            old(self)@.bursts(k) < u32::MAX,
        ensures
            final(self)@ == old(self)@.burst_done(k),
    {
        match k {
            Kind::Compute => self.cpu_burst_count = self.cpu_burst_count + 1,
            Kind::InputIO => self.io_burst_count.0 = self.io_burst_count.0 + 1,
            Kind::OutputIO => self.io_burst_count.1 = self.io_burst_count.1 + 1,
        }
    }
}

} // verus!
