//! The shutdown coordinator's state machine: while running it collects task
//! handles and disposable resources; the one shutdown hands them back in
//! registration order, resources first.
use vstd::prelude::*;

verus! {

/// The two phases of the coordinator; shutting down is terminal.
#[derive(Clone, Copy, Debug, PartialEq, Eq, Structural)]
pub enum ShutdownPhase {
    Running,
    ShuttingDown,
}

/// What the coordinator does when it is asked to shut down.
pub struct Teardown<J, D> {
    /// Released first, in registration order.
    pub droppables: Vec<D>,
    /// Then joined, in registration order.
    pub join_handles: Vec<J>,
}

/// Collected task handles `J` and disposable resources `D`.
pub struct ShutdownCoordinator<J, D> {
    phase: ShutdownPhase,
    join_handles: Vec<J>,
    droppables: Vec<D>,
}

impl<J, D> ShutdownCoordinator<J, D> {
    pub closed spec fn phase(&self) -> ShutdownPhase {
        self.phase
    }

    pub closed spec fn join_handles(&self) -> Seq<J> {
        self.join_handles@
    }

    pub closed spec fn droppables(&self) -> Seq<D> {
        self.droppables@
    }

    /// A running coordinator with nothing registered.
    pub fn new() -> (r: Self)
        ensures
            r.phase() == ShutdownPhase::Running,
            r.join_handles() == Seq::<J>::empty(),
            r.droppables() == Seq::<D>::empty(),
    {
        ShutdownCoordinator {
            phase: ShutdownPhase::Running,
            join_handles: Vec::new(),
            droppables: Vec::new(),
        }
    }

    pub fn is_running(&self) -> (r: bool)
        ensures
            r == (self.phase() == ShutdownPhase::Running),
    {
        self.phase == ShutdownPhase::Running
    }

    /// Registers a task to be joined at shutdown. Once shutting down nothing
    /// is registered: the handle comes back as the error.
    pub fn add_join_handle(&mut self, join_handle: J) -> (r: Result<(), J>)
        ensures
            final(self).phase() == old(self).phase(),
            final(self).droppables() == old(self).droppables(),
            old(self).phase() == ShutdownPhase::Running ==> r is Ok && final(self).join_handles()
                == old(self).join_handles().push(join_handle),
            old(self).phase() == ShutdownPhase::ShuttingDown ==> r == Err::<(), J>(join_handle)
                && final(self).join_handles() == old(self).join_handles(),
    {
        if self.is_running() {
            self.join_handles.push(join_handle);
            Ok(())
        } else {
            Err(join_handle)
        }
    }

    /// Registers a resource to be released at shutdown. Once shutting down
    /// nothing is registered: the resource comes back as the error.
    pub fn add_droppable(&mut self, droppable: D) -> (r: Result<(), D>)
        ensures
            final(self).phase() == old(self).phase(),
            final(self).join_handles() == old(self).join_handles(),
            old(self).phase() == ShutdownPhase::Running ==> r is Ok && final(self).droppables()
                == old(self).droppables().push(droppable),
            old(self).phase() == ShutdownPhase::ShuttingDown ==> r == Err::<(), D>(droppable)
                && final(self).droppables() == old(self).droppables(),
    {
        if self.is_running() {
            self.droppables.push(droppable);
            Ok(())
        } else {
            Err(droppable)
        }
    }

    /// The shutdown trigger: the first call moves to shutting down and hands
    /// back everything registered, in registration order; a later call is
    /// refused with `None` and changes nothing.
    pub fn shutdown(&mut self) -> (r: Option<Teardown<J, D>>)
        ensures
            final(self).phase() == ShutdownPhase::ShuttingDown,
            old(self).phase() == ShutdownPhase::Running <==> r is Some,
            r is Some ==> final(self).join_handles() == Seq::<J>::empty(),
            r is Some ==> final(self).droppables() == Seq::<D>::empty(),
            r is None ==> final(self).join_handles() == old(self).join_handles(),
            r is None ==> final(self).droppables() == old(self).droppables(),
            r matches Some(t) ==> t.droppables@ == old(self).droppables(),
            r matches Some(t) ==> t.join_handles@ == old(self).join_handles(),
    {
        if self.is_running() {
            self.phase = ShutdownPhase::ShuttingDown;
            let mut droppables: Vec<D> = Vec::new();
            let mut join_handles: Vec<J> = Vec::new();
            std::mem::swap(&mut droppables, &mut self.droppables);
            std::mem::swap(&mut join_handles, &mut self.join_handles);
            Some(Teardown { droppables, join_handles })
        } else {
            None
        }
    }
}

} // verus!
