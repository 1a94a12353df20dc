//! The lifecycle record shared by the pipeline's stages, and the record of a
//! finished probe.
use vstd::prelude::*;

verus! {

/// Where a stage is in its life: it only ever moves forward,
/// `Init` to `Running` to `Stop`.
#[derive(Debug, Clone, Copy, PartialEq, Eq, Structural)]
pub enum WorkerStatus {
    Init,
    Running,
    Stop,
}

/// How far a status has come.
pub open spec fn rank(s: WorkerStatus) -> nat {
    match s {
        WorkerStatus::Init => 0,
        WorkerStatus::Running => 1,
        WorkerStatus::Stop => 2,
    }
}

/// `s` moved on to `to`, unless it was already further.
pub open spec fn moved_to(s: WorkerStatus, to: WorkerStatus) -> WorkerStatus {
    if rank(s) < rank(to) {
        to
    } else {
        s
    }
}

/// A completed probe: the response's status code and the requested URL, with
/// the body when it was asked for.
#[derive(Debug, Default)]
pub struct EnumResult {
    pub status_code: u16,
    pub url: String,
    pub content: Option<String>,
}

/// The status of the generator, of each worker, and of the sink.
#[derive(Debug)]
pub struct AppContext {
    pub builder_status: WorkerStatus,
    pub worker_status: Vec<WorkerStatus>,
    pub saver_status: WorkerStatus,
}

/// No status of `b` is behind the one it had in `a`, and no worker is gone.
pub open spec fn no_status_reverts(a: AppContext, b: AppContext) -> bool {
    &&& rank(a.builder_status) <= rank(b.builder_status)
    &&& rank(a.saver_status) <= rank(b.saver_status)
    &&& a.worker_status@.len() <= b.worker_status@.len()
    &&& forall|i: int|
        0 <= i < a.worker_status@.len() ==> rank(#[trigger] a.worker_status@[i]) <= rank(
            b.worker_status@[i],
        )
}

/// Whether some worker is still running.
pub open spec fn some_running(ws: Seq<WorkerStatus>) -> bool {
    exists|i: int| 0 <= i < ws.len() && ws[i] == WorkerStatus::Running
}

impl AppContext {
    /// Every stage at `Init`, no worker yet.
    pub fn new() -> (r: Self)
        ensures
            r.builder_status == WorkerStatus::Init,
            r.saver_status == WorkerStatus::Init,
            r.worker_status@.len() == 0,
    {
        AppContext {
            builder_status: WorkerStatus::Init,
            worker_status: Vec::new(),
            saver_status: WorkerStatus::Init,
        }
    }

    fn move_to(s: WorkerStatus, to: WorkerStatus) -> (r: WorkerStatus)
        ensures
            r == moved_to(s, to),
    {
        match (s, to) {
            (WorkerStatus::Init, _) => to,
            (WorkerStatus::Running, WorkerStatus::Stop) => to,
            _ => s,
        }
    }

    /// Moves the generator on to `to`; a status never goes back.
    pub fn set_builder(&mut self, to: WorkerStatus)
        ensures
            final(self).builder_status == moved_to(old(self).builder_status, to),
            final(self).worker_status == old(self).worker_status,
            final(self).saver_status == old(self).saver_status,
            no_status_reverts(*old(self), *final(self)),
    {
        self.builder_status = Self::move_to(self.builder_status, to);
    }

    /// Moves the sink on to `to`; a status never goes back.
    pub fn set_saver(&mut self, to: WorkerStatus)
        ensures
            final(self).saver_status == moved_to(old(self).saver_status, to),
            final(self).worker_status == old(self).worker_status,
            final(self).builder_status == old(self).builder_status,
            no_status_reverts(*old(self), *final(self)),
    {
        self.saver_status = Self::move_to(self.saver_status, to);
    }

    /// Adds a running worker and returns its index.
    pub fn add_worker(&mut self) -> (idx: usize)
        requires
            old(self).worker_status@.len() < usize::MAX,
        ensures
            idx == old(self).worker_status@.len(),
            final(self).worker_status@ == old(self).worker_status@.push(WorkerStatus::Running),
            final(self).builder_status == old(self).builder_status,
            final(self).saver_status == old(self).saver_status,
            no_status_reverts(*old(self), *final(self)),
    {
        let idx = self.worker_status.len();
        self.worker_status.push(WorkerStatus::Running);
        idx
    }

    /// Moves worker `idx` on to `to`; a status never goes back.
    pub fn set_worker(&mut self, idx: usize, to: WorkerStatus)
        requires
            idx < old(self).worker_status@.len(),
        ensures
            final(self).worker_status@ == old(self).worker_status@.update(
                idx as int,
                moved_to(old(self).worker_status@[idx as int], to),
            ),
            final(self).builder_status == old(self).builder_status,
            final(self).saver_status == old(self).saver_status,
            no_status_reverts(*old(self), *final(self)),
    {
        let s = Self::move_to(self.worker_status[idx], to);
        self.worker_status.set(idx, s);
    }

    /// Whether the generator has finished.
    pub fn builder_stopped(&self) -> (r: bool)
        ensures
            r == (self.builder_status == WorkerStatus::Stop),
    {
        self.builder_status == WorkerStatus::Stop
    }

    /// Whether some worker is still running.
    pub fn any_worker_running(&self) -> (r: bool)
        ensures
            r == some_running(self.worker_status@),
    {
        let mut i: usize = 0;
        while i < self.worker_status.len()
            invariant
                i <= self.worker_status@.len(),
                forall|j: int| 0 <= j < i ==> self.worker_status@[j] != WorkerStatus::Running,
            decreases self.worker_status@.len() - i,
        {
            if self.worker_status[i] == WorkerStatus::Running {
                return true;
            }
            i += 1;
        }
        false
    }
}

} // verus!
