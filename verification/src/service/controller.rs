//! Which runner process an invocation goes to.
use vstd::prelude::*;
use vstd::string::*;

use crate::module_queue;
use crate::service::process;
use crate::service::process::{ControlMessage, Process, ProcessState};

verus! {

/// Where an invocation is placed.
#[derive(Debug, Clone, Copy, PartialEq, Eq, Structural)]
pub enum Placement {
    /// On a process that already has the module loaded.
    Warm(usize),
    /// On a process that has capacity but not the module.
    Available(usize),
    /// On a process that is still to be spawned.
    Spawn,
}

/// An invocation that has been placed, with the message to send.
pub struct Assignment {
    pub placement: Placement,
    pub message: ControlMessage,
}

/// What is known of a controller.
pub struct ControllerState {
    pub services: Seq<ProcessState>,
    pub max_num_services: nat,
    pub max_invocation_capacity: nat,
    pub max_loaded_modules: nat,
    pub runner_bin: Seq<char>,
}

impl ControllerState {
    /// Whether a process can take an invocation of a service without loading
    /// the module.
    pub open spec fn warm(self, i: int, service_id: Seq<char>) -> bool {
        self.services[i].has_loaded(service_id) && self.services[i].has_capacity()
    }

    pub open spec fn available(self, i: int) -> bool {
        self.services[i].has_capacity()
    }

    pub open spec fn first_warm(self, i: int, service_id: Seq<char>) -> bool {
        &&& 0 <= i < self.services.len()
        &&& self.warm(i, service_id)
        &&& forall|k: int| 0 <= k < i ==> !self.warm(k, service_id)
    }

    pub open spec fn none_warm(self, service_id: Seq<char>) -> bool {
        forall|k: int| 0 <= k < self.services.len() ==> !self.warm(k, service_id)
    }

    pub open spec fn first_available(self, i: int) -> bool {
        &&& 0 <= i < self.services.len()
        &&& self.available(i)
        &&& forall|k: int| 0 <= k < i ==> !self.available(k)
    }

    pub open spec fn none_available(self) -> bool {
        forall|k: int| 0 <= k < self.services.len() ==> !self.available(k)
    }

    /// Whether a process may be spawned for an invocation: another one is allowed,
    /// and it may run invocations at all.
    pub open spec fn may_spawn(self) -> bool {
        self.services.len() != self.max_num_services && self.max_invocation_capacity > 0
    }

    /// Where an invocation of a service belongs: on the first process that is
    /// warm for it, else on the first that has capacity, else on a new one where
    /// another is allowed.
    pub open spec fn belongs(self, placement: Placement, service_id: Seq<char>) -> bool {
        match placement {
            Placement::Warm(i) => self.first_warm(i as int, service_id),
            Placement::Available(i) => self.none_warm(service_id) && self.first_available(i as int),
            Placement::Spawn => self.none_available() && self.may_spawn(),
        }
    }

    /// The controller after an invocation of a service has been placed. A process
    /// that is still to be spawned is not among the controller's yet.
    pub open spec fn placed(self, placement: Placement, service_id: Seq<char>) -> ControllerState {
        match placement {
            Placement::Warm(i) => self.assigned(i as int, service_id),
            Placement::Available(i) => self.assigned(i as int, service_id),
            Placement::Spawn => self,
        }
    }

    pub open spec fn assigned(self, i: int, service_id: Seq<char>) -> ControllerState {
        ControllerState {
            services: self.services.update(i, self.services[i].assigned(service_id)),
            ..self
        }
    }

    /// A process that has just been spawned for an invocation of a service.
    pub open spec fn launched(self, pid: i32, control_fd: i32, service_id: Seq<char>) -> ProcessState {
        (ProcessState {
            pid,
            control_fd,
            modules: Seq::empty(),
            max_loaded_modules: self.max_loaded_modules,
            max_invocation_capacity: self.max_invocation_capacity,
            running: 0,
        }).assigned(service_id)
    }

    /// There are no more processes than allowed.
    pub open spec fn within_limit(self) -> bool {
        self.services.len() <= self.max_num_services
    }

    /// There are no more processes than allowed, and each is in order.
    pub open spec fn in_order(self) -> bool {
        &&& self.within_limit()
        &&& forall|k: int| 0 <= k < self.services.len() ==> #[trigger] self.services[k].in_order()
    }
}

/// Manages the runner processes.
pub struct Controller {
    running_services: Vec<Process>,
    max_num_services: usize,
    max_invocation_capacity: usize,
    max_loaded_modules: usize,
    runner_bin: String,
}

impl View for Controller {
    type V = ControllerState;

    closed spec fn view(&self) -> ControllerState {
        ControllerState {
            services: Seq::new(self.running_services@.len(), |i: int| self.running_services@[i]@),
            max_num_services: self.max_num_services as nat,
            max_invocation_capacity: self.max_invocation_capacity as nat,
            max_loaded_modules: self.max_loaded_modules as nat,
            runner_bin: self.runner_bin@,
        }
    }
}

impl Controller {
    pub fn new(
        max_num_services: usize,
        max_invocation_capacity: usize,
        max_loaded_modules: usize,
        runner_bin: String,
    ) -> (controller: Self)
        ensures
            controller@ == (ControllerState {
                services: Seq::empty(),
                max_num_services: max_num_services as nat,
                max_invocation_capacity: max_invocation_capacity as nat,
                max_loaded_modules: max_loaded_modules as nat,
                runner_bin: runner_bin@,
            }),
            controller@.within_limit(),
    {
        let controller = Controller {
            running_services: Vec::new(),
            max_num_services,
            max_invocation_capacity,
            max_loaded_modules,
            runner_bin,
        };
        assert(controller@.services =~= Seq::empty());
        controller
    }

    /// The program that runners are spawned from.
    pub fn runner_bin(&self) -> (r: &str)
        ensures
            r@ == self@.runner_bin,
    {
        self.runner_bin.as_str()
    }

    /// The number of processes.
    pub fn num_services(&self) -> (n: usize)
        ensures
            n == self@.services.len(),
    {
        self.running_services.len()
    }

    /// The processes, oldest first.
    pub fn service(&self, i: usize) -> (process: &Process)
        requires
            i < self@.services.len(),
        ensures
            process@ == self@.services[i as int],
    {
        &self.running_services[i]
    }

    /// Takes over the number of invocations that run on a process from the
    /// counter that is shared with the thread that hears from it.
    pub fn observe_running(&mut self, i: usize, running: usize)
        requires
            i < old(self)@.services.len(),
        ensures
            final(self)@ == (ControllerState {
                services: old(self)@.services.update(
                    i as int,
                    (ProcessState { running: running as nat, ..old(self)@.services[i as int] }),
                ),
                ..old(self)@
            }),
    {
        self.running_services[i].observe_running(running);
        assert(self@.services =~= old(self)@.services.update(
            i as int,
            (ProcessState { running: running as nat, ..old(self)@.services[i as int] }),
        ));
    }

    fn find_warm(&self, service_id: &str) -> (r: Option<usize>)
        ensures
            match r {
                Some(i) => self@.first_warm(i as int, service_id@),
                None => self@.none_warm(service_id@),
            },
    {
        let mut i: usize = 0;
        while i < self.running_services.len()
            invariant
                i <= self@.services.len(),
                forall|k: int| 0 <= k < i ==> !self@.warm(k, service_id@),
            decreases self@.services.len() - i,
        {
            let process = &self.running_services[i];
            if process.has_runtime_loaded(service_id) && process.has_capacity() {
                return Some(i);
            }
            i = i + 1;
        }
        None
    }

    fn find_available(&self) -> (r: Option<usize>)
        ensures
            match r {
                Some(i) => self@.first_available(i as int),
                None => self@.none_available(),
            },
    {
        let mut i: usize = 0;
        while i < self.running_services.len()
            invariant
                i <= self@.services.len(),
                forall|k: int| 0 <= k < i ==> !self@.available(k),
            decreases self@.services.len() - i,
        {
            if self.running_services[i].has_capacity() {
                return Some(i);
            }
            i = i + 1;
        }
        None
    }

    fn assign(&mut self, i: usize, service_id: String)
        requires
            i < old(self)@.services.len(),
        ensures
            final(self)@ == old(self)@.assigned(i as int, service_id@),
    {
        self.running_services[i].increment_invocations();
        self.running_services[i].track_module(service_id);
        assert(self@.services =~= old(self)@.assigned(i as int, service_id@).services);
    }

    /// Schedules an invocation on a process. Prefers a process that already has
    /// the module loaded, falls back to the first process with capacity, and
    /// asks for a new process as a last resort. Where a process may run nothing,
    /// the invocation is refused.
    pub fn schedule_invocation(
        &mut self,
        service_id: String,
        wasm_bytes: Vec<u8>,
        tcp_fd: i32,
    ) -> (r: Result<Assignment, String>)
        ensures
            match r {
                Ok(assignment) => {
                    &&& old(self)@.belongs(assignment.placement, service_id@)
                    &&& final(self)@ == old(self)@.placed(assignment.placement, service_id@)
                    &&& assignment.message.id() == service_id@
                    &&& assignment.message.wasm() == wasm_bytes@
                    &&& assignment.message->tcp_fd == tcp_fd
                },
                Err(e) => {
                    &&& old(self)@.none_available()
                    &&& !old(self)@.may_spawn()
                    &&& final(self)@ == old(self)@
                    &&& e@ == "can not create any more processes"@
                },
            },
            r is Err <==> {
                let state = old(self)@;
                &&& forall|k: int|
                    0 <= k < state.services.len() ==> (#[trigger] state.services[k]).running
                        >= state.services[k].max_invocation_capacity
                &&& state.services.len() == state.max_num_services
                    || state.max_invocation_capacity == 0
            },
            r is Ok && r->Ok_0.placement is Spawn ==> final(self)@ == old(self)@,
            final(self)@.services.len() == old(self)@.services.len(),
            old(self)@.within_limit() ==> final(self)@.within_limit(),
            old(self)@.in_order() ==> final(self)@.in_order(),
    {
        let ghost before = self@;
        assert(forall|k: int| #![trigger before.services[k]] before.available(k) <==>
            before.services[k].running < before.services[k].max_invocation_capacity);
        proof {
            self.law_capacities_fit();
        }
        let warm = self.find_warm(service_id.as_str());
        if let Some(i) = warm {
            self.assign(i, service_id.clone());
            proof {
                if before.in_order() {
                    law_placing_keeps_order(before, Placement::Warm(i), service_id@, 0, 0);
                }
            }
            return Ok(
                Assignment {
                    placement: Placement::Warm(i),
                    message: ControlMessage::Invocation { service_id, wasm_bytes, tcp_fd },
                },
            );
        }
        let available = self.find_available();
        if let Some(i) = available {
            self.assign(i, service_id.clone());
            proof {
                if before.in_order() {
                    law_placing_keeps_order(before, Placement::Available(i), service_id@, 0, 0);
                }
            }
            return Ok(
                Assignment {
                    placement: Placement::Available(i),
                    message: ControlMessage::Invocation { service_id, wasm_bytes, tcp_fd },
                },
            );
        }
        if self.running_services.len() == self.max_num_services || self.max_invocation_capacity
            == 0 {
            return Err("can not create any more processes".to_owned());
        }
        Ok(
            Assignment {
                placement: Placement::Spawn,
                message: ControlMessage::Invocation { service_id, wasm_bytes, tcp_fd },
            },
        )
    }

    /// The record of a process that has been spawned for an invocation, with the
    /// invocation already assigned to it.
    pub fn launch(&self, pid: i32, control_fd: i32, service_id: String) -> (process: Process)
        ensures
            process@ == self@.launched(pid, control_fd, service_id@),
    {
        let mut process = Process::run(
            pid,
            control_fd,
            self.max_invocation_capacity,
            self.max_loaded_modules,
        );
        process.increment_invocations();
        process.track_module(service_id);
        process
    }

    /// The capacity that processes are given, and that of each process, fit in the
    /// machine.
    pub proof fn law_capacities_fit(&self)
        ensures
            self@.max_invocation_capacity <= usize::MAX,
            forall|k: int|
                0 <= k < self@.services.len()
                    ==> #[trigger] self@.services[k].max_invocation_capacity <= usize::MAX,
    {
        assert forall|k: int| 0 <= k < self@.services.len() implies #[trigger]
            self@.services[k].max_invocation_capacity <= usize::MAX by {
            self.running_services@[k].law_counts_fit();
        }
    }

    /// Adds a process that has been spawned, once its first invocation has been
    /// handed to it.
    pub fn adopt(&mut self, process: Process)
        ensures
            final(self)@ == (ControllerState {
                services: old(self)@.services.push(process@),
                ..old(self)@
            }),
    {
        self.running_services.push(process);
        assert(self@.services =~= old(self)@.services.push(process@));
    }
}

/// Where an invocation belongs there is no other place where it belongs.
pub proof fn law_one_place(
    controller: ControllerState,
    a: Placement,
    b: Placement,
    service_id: Seq<char>,
)
    requires
        controller.belongs(a, service_id),
        controller.belongs(b, service_id),
    ensures
        a == b,
{
    match (a, b) {
        (Placement::Warm(i), Placement::Warm(j)) => {
            assert(i < j ==> !controller.warm(i as int, service_id));
            assert(j < i ==> !controller.warm(j as int, service_id));
        },
        (Placement::Available(i), Placement::Available(j)) => {
            assert(i < j ==> !controller.available(i as int));
            assert(j < i ==> !controller.available(j as int));
        },
        (Placement::Warm(i), _) => {
            assert(controller.warm(i as int, service_id) && controller.available(i as int));
        },
        (_, Placement::Warm(j)) => {
            assert(controller.warm(j as int, service_id) && controller.available(j as int));
        },
        _ => {},
    }
}

/// An invocation is placed on a process only where there is room for it: the
/// process then runs one invocation more and still no more than its capacity, and
/// the module of the service is loaded on it, if any may be.
pub proof fn law_placed_within_capacity(
    controller: ControllerState,
    placement: Placement,
    i: usize,
    service_id: Seq<char>,
)
    requires
        controller.belongs(placement, service_id),
        placement == Placement::Warm(i) || placement == Placement::Available(i),
        controller.services[i as int].max_invocation_capacity <= usize::MAX,
    ensures
        ({
            let before = controller.services[i as int];
            let after = controller.placed(placement, service_id).services[i as int];
            &&& after.running == before.running + 1
            &&& after.running <= after.max_invocation_capacity
            &&& before.max_loaded_modules > 0 ==> after.has_loaded(service_id)
        }),
{
    let before = controller.services[i as int];
    let queue = module_queue::after_use(before.modules, before.max_loaded_modules, service_id);
    if before.max_loaded_modules > 0 {
        assert(queue.last() == service_id);
        assert(queue.contains(queue[queue.len() - 1]));
    }
}

/// Placing an invocation keeps a controller in order, and so does adopting the
/// process that was spawned for it.
pub proof fn law_placing_keeps_order(
    controller: ControllerState,
    placement: Placement,
    service_id: Seq<char>,
    pid: i32,
    control_fd: i32,
)
    requires
        controller.in_order(),
        controller.belongs(placement, service_id),
        controller.max_invocation_capacity <= usize::MAX,
    ensures
        controller.placed(placement, service_id).in_order(),
        placement is Spawn ==> (ControllerState {
            services: controller.services.push(controller.launched(pid, control_fd, service_id)),
            ..controller
        }).in_order(),
{
    let placed = controller.placed(placement, service_id);
    assert forall|k: int| 0 <= k < placed.services.len() implies #[trigger]
        placed.services[k].in_order() by {
        let before = controller.services[k];
        assert(before.in_order());
        process::lemma_assigned_in_order(before, service_id);
    }
    let launched = controller.launched(pid, control_fd, service_id);
    let fresh = ProcessState {
        pid,
        control_fd,
        modules: Seq::empty(),
        max_loaded_modules: controller.max_loaded_modules,
        max_invocation_capacity: controller.max_invocation_capacity,
        running: 0,
    };
    if placement is Spawn {
        process::lemma_assigned_in_order(fresh, service_id);
    }
    assert(launched == fresh.assigned(service_id));
}

/// An invocation is refused only where the limits are reached: as long as a
/// process runs fewer invocations than it may, or there are fewer processes than
/// allowed and a new one may run something, there is a place for the invocation.
/// Where every process runs as many as it may and no other is allowed, there is
/// none.
pub proof fn law_place_unless_limits_reached(controller: ControllerState, service_id: Seq<char>)
    requires
        controller.services.len() <= usize::MAX,
    ensures
        controller.services.len() < controller.max_num_services
            && controller.max_invocation_capacity > 0 ==> exists|p: Placement| #[trigger]
            controller.belongs(p, service_id),
        (exists|k: int|
            0 <= k < controller.services.len() && (#[trigger] controller.services[k]).running
                < controller.services[k].max_invocation_capacity) ==> exists|p: Placement| #[trigger]
            controller.belongs(p, service_id),
        (forall|k: int|
            0 <= k < controller.services.len() ==> (#[trigger] controller.services[k]).running
                >= controller.services[k].max_invocation_capacity) && (controller.services.len()
            == controller.max_num_services || controller.max_invocation_capacity == 0)
            ==> forall|p: Placement| !#[trigger] controller.belongs(p, service_id),
{
    let n = controller.services.len() as int;
    lemma_first_warm(controller, service_id, n);
    lemma_first_available(controller, n);
    if exists|i: int| controller.first_warm(i, service_id) {
        let i = choose|i: int| controller.first_warm(i, service_id);
        assert(controller.belongs(Placement::Warm(i as usize), service_id));
    } else if exists|i: int| controller.first_available(i) {
        let i = choose|i: int| controller.first_available(i);
        assert(controller.belongs(Placement::Available(i as usize), service_id));
    } else {
        assert(controller.none_available());
        assert forall|k: int| 0 <= k < n implies (#[trigger] controller.services[k]).running
            >= controller.services[k].max_invocation_capacity by {
            assert(!controller.available(k));
        }
        if controller.services.len() < controller.max_num_services
            && controller.max_invocation_capacity > 0 {
            assert(controller.belongs(Placement::Spawn, service_id));
        }
    }
}

proof fn lemma_first_warm(controller: ControllerState, service_id: Seq<char>, n: int)
    requires
        0 <= n <= controller.services.len(),
    ensures
        (exists|i: int| controller.first_warm(i, service_id)) || forall|k: int|
            0 <= k < n ==> !controller.warm(k, service_id),
    decreases n,
{
    if n > 0 {
        lemma_first_warm(controller, service_id, n - 1);
        if controller.warm(n - 1, service_id) {
            assert((forall|k: int| 0 <= k < n - 1 ==> !controller.warm(k, service_id))
                ==> controller.first_warm(n - 1, service_id));
        }
    }
}

proof fn lemma_first_available(controller: ControllerState, n: int)
    requires
        0 <= n <= controller.services.len(),
    ensures
        (exists|i: int| controller.first_available(i)) || forall|k: int|
            0 <= k < n ==> !controller.available(k),
    decreases n,
{
    if n > 0 {
        lemma_first_available(controller, n - 1);
        if controller.available(n - 1) {
            assert((forall|k: int| 0 <= k < n - 1 ==> !controller.available(k))
                ==> controller.first_available(n - 1));
        }
    }
}

/// What a place means in numbers. On a warm process the module is loaded, there is
/// room, and no earlier process has both. On an available one there is room and no
/// earlier process has room, and none that has room has the module. One is spawned
/// only where no process has room.
pub proof fn law_what_a_place_means(
    controller: ControllerState,
    placement: Placement,
    service_id: Seq<char>,
    k: int,
)
    requires
        controller.belongs(placement, service_id),
        0 <= k < controller.services.len(),
    ensures
        ({
            let other = controller.services[k];
            let room = other.running < other.max_invocation_capacity;
            match placement {
                Placement::Warm(i) => {
                    &&& i < controller.services.len()
                    &&& k == i ==> room && other.modules.contains(service_id)
                    &&& k < i ==> !(room && other.modules.contains(service_id))
                },
                Placement::Available(i) => {
                    &&& i < controller.services.len()
                    &&& k == i ==> room
                    &&& k < i ==> !room
                    &&& room ==> !other.modules.contains(service_id)
                },
                Placement::Spawn => {
                    &&& !room
                    &&& controller.services.len() != controller.max_num_services
                    &&& controller.max_invocation_capacity > 0
                },
            }
        }),
{
    assert(controller.warm(k, service_id) <==> controller.services[k].modules.contains(service_id)
        && controller.available(k));
    assert(controller.available(k) <==> controller.services[k].running
        < controller.services[k].max_invocation_capacity);
}

/// A process with room that has the module loaded goes before every process
/// without the module; a process with room goes before a new one.
pub proof fn law_warm_goes_first(
    controller: ControllerState,
    placement: Placement,
    service_id: Seq<char>,
    k: int,
)
    requires
        controller.belongs(placement, service_id),
        0 <= k < controller.services.len(),
        controller.services[k].running < controller.services[k].max_invocation_capacity,
    ensures
        !(placement is Spawn),
        controller.services[k].modules.contains(service_id) ==> placement is Warm && placement->Warm_0
            <= k,
        placement is Available ==> placement->Available_0 <= k,
{
    law_what_a_place_means(controller, placement, service_id, k);
}

/// Placing an invocation touches the process it is placed on, of which only the
/// count and the loaded modules change, and nothing else of the controller. Where a
/// process is to be spawned nothing changes.
pub proof fn law_placing_touches_one_process(
    controller: ControllerState,
    placement: Placement,
    service_id: Seq<char>,
    k: int,
)
    requires
        controller.belongs(placement, service_id),
        0 <= k < controller.services.len(),
    ensures
        ({
            let after = controller.placed(placement, service_id);
            let place = match placement {
                Placement::Warm(i) => i as int,
                Placement::Available(i) => i as int,
                Placement::Spawn => -1,
            };
            &&& after.services.len() == controller.services.len()
            &&& after.max_num_services == controller.max_num_services
            &&& after.max_invocation_capacity == controller.max_invocation_capacity
            &&& after.max_loaded_modules == controller.max_loaded_modules
            &&& after.runner_bin == controller.runner_bin
            &&& k != place ==> after.services[k] == controller.services[k]
            &&& after.services[k].pid == controller.services[k].pid
            &&& after.services[k].control_fd == controller.services[k].control_fd
            &&& after.services[k].max_loaded_modules == controller.services[k].max_loaded_modules
            &&& after.services[k].max_invocation_capacity
                == controller.services[k].max_invocation_capacity
        }),
{
}

/// A process that has been spawned for an invocation runs one invocation, holds
/// the module of the service alone, if it may hold any, and has the controller's
/// limits.
pub proof fn law_launched_runs_one(
    controller: ControllerState,
    pid: i32,
    control_fd: i32,
    service_id: Seq<char>,
)
    ensures
        ({
            let launched = controller.launched(pid, control_fd, service_id);
            &&& launched.pid == pid
            &&& launched.control_fd == control_fd
            &&& launched.running == 1
            &&& controller.max_loaded_modules > 0 ==> launched.modules == seq![service_id]
            &&& controller.max_loaded_modules == 0 ==> launched.modules == Seq::<Seq<char>>::empty()
            &&& launched.max_loaded_modules == controller.max_loaded_modules
            &&& launched.max_invocation_capacity == controller.max_invocation_capacity
        }),
{
    if controller.max_loaded_modules > 0 {
        let none = Seq::<Seq<char>>::empty();
        assert(none + none =~= none);
        module_queue::law_new_name_goes_to_the_back(
            none,
            controller.max_loaded_modules,
            service_id,
        );
        assert(none.push(service_id) =~= seq![service_id]);
    }
}

/// A controller in order has no more processes than allowed, and none of them runs
/// more invocations or holds more modules than allowed, or one module twice.
pub proof fn law_what_order_means(controller: ControllerState, k: int, i: int, j: int)
    requires
        controller.in_order(),
        0 <= k < controller.services.len(),
    ensures
        ({
            let process = controller.services[k];
            &&& controller.services.len() <= controller.max_num_services
            &&& process.running <= process.max_invocation_capacity
            &&& process.modules.len() <= process.max_loaded_modules
            &&& 0 <= i < j < process.modules.len() ==> process.modules[i] != process.modules[j]
        }),
{
    assert(controller.services[k].in_order());
}

} // verus!
