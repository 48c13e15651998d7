//! Locking and unlocking of LUKS devices, as jobs.
//!
//! Closing a LUKS device, opening one, changing volume groups and scanning
//! the devices anew are done by the caller. A job says which of these comes
//! next, takes note of how it went, and says what comes after: the order of
//! the steps and the outcome of the whole are decided here.

use crate::block_types::copied;
use crate::block_types::text_view;
use crate::disk_manager::DiskManager;
use crate::graph::Field;
use crate::graph::Graph;
use crate::text::texts_view;
use vstd::prelude::*;

verus! {

/// Why a device could not be locked or unlocked.
#[derive(Debug)]
pub enum EncryptionError {
    /// The device is not in the snapshot.
    DeviceNotFound,
    /// The LUKS tool failed; with what it said.
    Cryptsetup(String),
    /// The device was opened, but its device map did not show within the
    /// waits that the caller allowed.
    Timeout,
}

pub enum EncryptionErrorView {
    DeviceNotFound,
    Cryptsetup(Seq<char>),
    Timeout,
}

impl View for EncryptionError {
    type V = EncryptionErrorView;

    open spec fn view(&self) -> EncryptionErrorView {
        match self {
            EncryptionError::DeviceNotFound => EncryptionErrorView::DeviceNotFound,
            EncryptionError::Cryptsetup(why) => EncryptionErrorView::Cryptsetup(why@),
            EncryptionError::Timeout => EncryptionErrorView::Timeout,
        }
    }
}

impl EncryptionError {
    /// The error in words.
    pub fn message(&self) -> (r: String)
        ensures
            r@ == (match self {
                EncryptionError::DeviceNotFound => "cannot unlock device which does not exist"@,
                EncryptionError::Cryptsetup(_) => "decryption failed"@,
                EncryptionError::Timeout => "the unlocked device did not show in time"@,
            }),
    {
        match self {
            EncryptionError::DeviceNotFound => {
                "cannot unlock device which does not exist".to_owned()
            },
            EncryptionError::Cryptsetup(_) => "decryption failed".to_owned(),
            EncryptionError::Timeout => "the unlocked device did not show in time".to_owned(),
        }
    }
}

/// How a step went: `None` where it went well, else what failed.
pub type Outcome = Option<Seq<char>>;

/// The view of the outcome that the caller reports.
pub open spec fn outcome_view(outcome: Result<(), String>) -> Outcome {
    match outcome {
        Ok(_) => None,
        Err(why) => Some(why@),
    }
}

/// How a job ended, as the contracts see it.
pub type Ending = Result<(), EncryptionErrorView>;

/// The view of the result of a job.
pub open spec fn ending_view(ending: Result<(), EncryptionError>) -> Ending {
    match ending {
        Ok(_) => Ok(()),
        Err(why) => Err(why@),
    }
}

/// What the caller of a lock job does next.
#[derive(Debug)]
pub enum LockStep {
    /// Deactivate this volume group. A failure is reported like a success.
    DeactivateVolumeGroup { vg: String },
    /// Close the LUKS device at `device`, which the device mapper knows as
    /// `name`.
    DeactivateLuks { device: String, name: String },
    /// Scan the devices and reload the manager.
    Reload,
    /// Nothing: the job has ended.
    Finished(Result<(), EncryptionError>),
}

pub enum LockStepView {
    DeactivateVolumeGroup { vg: Seq<char> },
    DeactivateLuks { device: Seq<char>, name: Seq<char> },
    Reload,
    Finished(Ending),
}

impl View for LockStep {
    type V = LockStepView;

    open spec fn view(&self) -> LockStepView {
        match self {
            LockStep::DeactivateVolumeGroup { vg } => LockStepView::DeactivateVolumeGroup {
                vg: vg@,
            },
            LockStep::DeactivateLuks { device, name } => LockStepView::DeactivateLuks {
                device: device@,
                name: name@,
            },
            LockStep::Reload => LockStepView::Reload,
            LockStep::Finished(ending) => LockStepView::Finished(ending_view(*ending)),
        }
    }
}

/// The closing of a LUKS device with all that stands on it.
pub struct LuksLock {
    name: String,
    vgs: Vec<String>,
    luks: Vec<String>,
    /// How many of `vgs` were dealt with.
    groups_done: usize,
    /// How many of `luks` were closed.
    closed: usize,
    reloaded: bool,
    failure: Option<String>,
    /// The volume groups that could not be deactivated.
    unmoved: Vec<String>,
}

/// A lock job, as the contracts see it.
pub struct LuksLockView {
    /// The name under which the device mapper knows the device.
    pub name: Seq<char>,
    /// The volume groups to deactivate, in this order.
    pub vgs: Seq<Seq<char>>,
    /// The LUKS devices to close, in this order.
    pub luks: Seq<Seq<char>>,
    /// How many steps were taken and went through.
    pub done: nat,
    /// What the LUKS tool said when it failed.
    pub failure: Outcome,
    /// The volume groups that could not be deactivated, in their order.
    pub unmoved: Seq<Seq<char>>,
}

impl LuksLockView {
    /// What comes next: first every volume group, then every LUKS device,
    /// then the reload; after the first LUKS device that could not be
    /// closed, nothing but the end.
    pub open spec fn step(self) -> LockStepView {
        match self.failure {
            Some(why) => LockStepView::Finished(Err(EncryptionErrorView::Cryptsetup(why))),
            None => if self.done < self.vgs.len() {
                LockStepView::DeactivateVolumeGroup { vg: self.vgs[self.done as int] }
            } else if self.done < self.vgs.len() + self.luks.len() {
                LockStepView::DeactivateLuks {
                    device: self.luks[self.done - self.vgs.len()],
                    name: self.name,
                }
            } else if self.done == self.vgs.len() + self.luks.len() {
                LockStepView::Reload
            } else {
                LockStepView::Finished(Ok(()))
            },
        }
    }

    /// The job after its next step was taken with this outcome. Only the
    /// failure to close a LUKS device ends the job; a volume group that
    /// could not be deactivated is noted, and the job goes on.
    pub open spec fn after(self, outcome: Outcome) -> LuksLockView {
        match (self.step(), outcome) {
            (LockStepView::Finished(_), _) => self,
            (LockStepView::DeactivateLuks { .. }, Some(why)) => LuksLockView {
                failure: Some(why),
                ..self
            },
            (LockStepView::DeactivateVolumeGroup { vg }, Some(_)) => LuksLockView {
                done: self.done + 1,
                unmoved: self.unmoved.push(vg),
                ..self
            },
            _ => LuksLockView { done: self.done + 1, ..self },
        }
    }

    /// The job after steps were taken with these outcomes, one after the
    /// other.
    pub open spec fn replay(self, outcomes: Seq<Outcome>) -> LuksLockView
        decreases outcomes.len(),
    {
        if outcomes.len() == 0 {
            self
        } else {
            self.replay(outcomes.drop_last()).after(outcomes.last())
        }
    }

    /// The job has not begun.
    pub open spec fn fresh(self) -> bool {
        self.done == 0 && self.failure is None && self.unmoved.len() == 0
    }
}

impl View for LuksLock {
    type V = LuksLockView;

    closed spec fn view(&self) -> LuksLockView {
        LuksLockView {
            name: self.name@,
            vgs: texts_view(self.vgs@),
            luks: texts_view(self.luks@),
            done: (self.groups_done + self.closed + if self.reloaded {
                1int
            } else {
                0int
            }) as nat,
            failure: text_view(self.failure),
            unmoved: texts_view(self.unmoved@),
        }
    }
}

impl LuksLock {
    /// The counts of the job fit its lists and the order of its steps.
    pub closed spec fn wf(&self) -> bool {
        &&& self.groups_done <= self.vgs@.len()
        &&& self.closed <= self.luks@.len()
        &&& self.closed > 0 ==> self.groups_done == self.vgs@.len()
        &&& self.reloaded ==> self.groups_done == self.vgs@.len() && self.closed
            == self.luks@.len()
        &&& self.failure is Some ==> self.groups_done == self.vgs@.len() && self.closed
            < self.luks@.len()
    }

    /// A job that has not begun.
    pub fn new(name: String, vgs: Vec<String>, luks: Vec<String>) -> (r: Self)
        ensures
            r.wf(),
            r@ == (LuksLockView {
                name: name@,
                vgs: texts_view(vgs@),
                luks: texts_view(luks@),
                done: 0,
                failure: None,
                unmoved: Seq::empty(),
            }),
    {
        let job = LuksLock {
            name,
            vgs,
            luks,
            groups_done: 0,
            closed: 0,
            reloaded: false,
            failure: None,
            unmoved: Vec::new(),
        };
        assert(texts_view(job.unmoved@) =~= Seq::empty());
        job
    }

    /// The volume groups that could not be deactivated so far.
    pub fn unmoved(&self) -> (r: &Vec<String>)
        ensures
            texts_view(r@) == self@.unmoved,
    {
        &self.unmoved
    }

    /// What the caller does next.
    pub fn next(&self) -> (r: LockStep)
        requires
            self.wf(),
        ensures
            r@ == self@.step(),
    {
        match &self.failure {
            Some(why) => LockStep::Finished(Err(EncryptionError::Cryptsetup(why.clone()))),
            None => if self.groups_done < self.vgs.len() {
                LockStep::DeactivateVolumeGroup { vg: self.vgs[self.groups_done].clone() }
            } else if self.closed < self.luks.len() {
                LockStep::DeactivateLuks {
                    device: self.luks[self.closed].clone(),
                    name: self.name.clone(),
                }
            } else if !self.reloaded {
                LockStep::Reload
            } else {
                LockStep::Finished(Ok(()))
            },
        }
    }

    /// Takes note of how the step that `next` gave went.
    pub fn record(&mut self, outcome: Result<(), String>)
        requires
            old(self).wf(),
        ensures
            final(self).wf(),
            final(self)@ == old(self)@.after(outcome_view(outcome)),
    {
        if self.failure.is_some() {
            return ;
        }
        if self.groups_done < self.vgs.len() {
            if outcome.is_err() {
                let ghost before = texts_view(self.unmoved@);
                let vg = self.vgs[self.groups_done].clone();
                self.unmoved.push(vg);
                assert(texts_view(self.unmoved@) =~= before.push(old(self)@.vgs[old(
                    self,
                )@.done as int]));
            }
            self.groups_done = self.groups_done + 1;
        } else if self.closed < self.luks.len() {
            match outcome {
                Err(why) => {
                    self.failure = Some(why);
                },
                Ok(_) => {
                    self.closed = self.closed + 1;
                },
            }
        } else if !self.reloaded {
            self.reloaded = true;
        }
    }
}

/// Whatever the outcomes, the volume groups come first, in their order:
/// while fewer steps were taken than there are volume groups, the next step
/// is to deactivate the next of them, so none comes after a LUKS device.
pub proof fn lemma_groups_first(job: LuksLockView, outcomes: Seq<Outcome>)
    requires
        job.fresh(),
        outcomes.len() < job.vgs.len(),
    ensures
        job.replay(outcomes).failure is None,
        job.replay(outcomes).done == outcomes.len(),
        job.replay(outcomes).step() == (LockStepView::DeactivateVolumeGroup {
            vg: job.vgs[outcomes.len() as int],
        }),
    decreases outcomes.len(),
{
    lemma_replay_keeps(job, outcomes);
    if outcomes.len() > 0 {
        lemma_groups_first(job, outcomes.drop_last());
    }
}

/// Taking steps changes neither the name nor the two lists of what there is
/// to do.
pub proof fn lemma_replay_keeps(job: LuksLockView, outcomes: Seq<Outcome>)
    ensures
        job.replay(outcomes).name == job.name,
        job.replay(outcomes).vgs == job.vgs,
        job.replay(outcomes).luks == job.luks,
    decreases outcomes.len(),
{
    if outcomes.len() > 0 {
        lemma_replay_keeps(job, outcomes.drop_last());
    }
}

/// A step was taken on a LUKS device, and went well.
pub open spec fn closed_well(job: LuksLockView, outcomes: Seq<Outcome>, i: int) -> bool {
    job.vgs.len() <= i < outcomes.len() ==> outcomes[i] is None
}

/// While every LUKS device so far could be closed, the LUKS devices come
/// after the volume groups, each in its turn, the device of the job first,
/// and the reload after the last of them.
pub proof fn lemma_luks_in_turn(job: LuksLockView, outcomes: Seq<Outcome>)
    requires
        job.fresh(),
        job.vgs.len() <= outcomes.len() <= job.vgs.len() + job.luks.len(),
        forall|i: int| closed_well(job, outcomes, i),
    ensures
        job.replay(outcomes).failure is None,
        job.replay(outcomes).done == outcomes.len(),
        outcomes.len() < job.vgs.len() + job.luks.len() ==> job.replay(outcomes).step() == (
        LockStepView::DeactivateLuks {
            device: job.luks[outcomes.len() - job.vgs.len()],
            name: job.name,
        }),
        outcomes.len() == job.vgs.len() + job.luks.len() ==> job.replay(outcomes).step()
            == LockStepView::Reload,
    decreases outcomes.len(),
{
    lemma_replay_keeps(job, outcomes);
    if outcomes.len() == 0 {
    } else if outcomes.len() == job.vgs.len() {
        let front = outcomes.drop_last();
        lemma_replay_keeps(job, front);
        if front.len() > 0 || job.vgs.len() > 0 {
            lemma_groups_first(job, front);
        }
    } else {
        let front = outcomes.drop_last();
        lemma_replay_keeps(job, front);
        assert forall|i: int| closed_well(job, front, i) by {
            assert(closed_well(job, outcomes, i));
        }
        lemma_luks_in_turn(job, front);
        assert(closed_well(job, outcomes, outcomes.len() - 1));
    }
}

/// The first LUKS device that cannot be closed ends the job: where the
/// devices before it could be closed and this one failed, whatever is
/// reported afterwards, the job is at its end with what the LUKS tool said,
/// and no further device is attempted. What was closed stays closed.
pub proof fn lemma_first_failure_ends(
    job: LuksLockView,
    outcomes: Seq<Outcome>,
    failed: int,
    why: Seq<char>,
)
    requires
        job.fresh(),
        job.vgs.len() <= failed < job.vgs.len() + job.luks.len(),
        failed < outcomes.len(),
        outcomes[failed] == Some(why),
        forall|i: int| job.vgs.len() <= i < failed ==> outcomes[i] is None,
    ensures
        job.replay(outcomes).done == failed,
        job.replay(outcomes).step() == LockStepView::Finished(
            Err(EncryptionErrorView::Cryptsetup(why)),
        ),
    decreases outcomes.len(),
{
    let front = outcomes.drop_last();
    lemma_replay_keeps(job, front);
    if outcomes.len() == failed + 1 {
        assert forall|i: int| closed_well(job, front, i) by {}
        lemma_luks_in_turn(job, front);
    } else {
        lemma_first_failure_ends(job, front, failed, why);
    }
}

/// What the caller of an unlock job does next.
#[derive(Debug)]
pub enum UnlockStep {
    /// Open the LUKS device at `device` with the passphrase `key`, under
    /// the mapper name `dm_name`.
    Activate { device: String, dm_name: String, key: Vec<u8> },
    /// Activate all volume groups. A failure is reported like a success.
    ActivateVolumeGroups,
    /// Scan the devices and reload the manager.
    Reload,
    /// Wait for this many seconds.
    Sleep { seconds: u64 },
    /// Nothing: the job has ended.
    Finished(Result<(), EncryptionError>),
}

pub enum UnlockStepView {
    Activate { device: Seq<char>, dm_name: Seq<char>, key: Seq<u8> },
    ActivateVolumeGroups,
    Reload,
    Sleep { seconds: u64 },
    Finished(Ending),
}

impl View for UnlockStep {
    type V = UnlockStepView;

    open spec fn view(&self) -> UnlockStepView {
        match self {
            UnlockStep::Activate { device, dm_name, key } => UnlockStepView::Activate {
                device: device@,
                dm_name: dm_name@,
                key: key@,
            },
            UnlockStep::ActivateVolumeGroups => UnlockStepView::ActivateVolumeGroups,
            UnlockStep::Reload => UnlockStepView::Reload,
            UnlockStep::Sleep { seconds } => UnlockStepView::Sleep { seconds: *seconds },
            UnlockStep::Finished(ending) => UnlockStepView::Finished(ending_view(*ending)),
        }
    }
}

/// Where an unlock job stands.
#[derive(Clone, Copy, Debug, PartialEq, Eq, Structural)]
pub enum UnlockStage {
    /// The device is to be opened.
    Opening,
    /// The volume groups are to be activated.
    Groups,
    /// The devices are to be scanned.
    Scanning,
    /// The device map has not shown yet.
    Waiting,
    /// The device map has shown.
    Shown,
    /// The device could not be opened.
    Failed,
    /// The device map did not show within the waits allowed.
    TimedOut,
}

/// The seconds between two looks for the device map.
pub const POLL_SECONDS: u64 = 1;

/// The opening of a LUKS device.
pub struct LuksUnlock {
    device: String,
    dm_name: String,
    key: Vec<u8>,
    stage: UnlockStage,
    failure: Option<String>,
    waits_left: Option<u32>,
}

/// An unlock job, as the contracts see it.
pub struct LuksUnlockView {
    pub device: Seq<char>,
    pub dm_name: Seq<char>,
    pub key: Seq<u8>,
    pub stage: UnlockStage,
    /// What the LUKS tool said when it failed.
    pub failure: Outcome,
    /// How many more times the job may wait for the device map to show;
    /// `None` where it may wait without end.
    pub waits_left: Option<u32>,
}

impl LuksUnlockView {
    /// What comes next, by the stage of the job.
    pub open spec fn step(self) -> UnlockStepView {
        match self.stage {
            UnlockStage::Opening => UnlockStepView::Activate {
                device: self.device,
                dm_name: self.dm_name,
                key: self.key,
            },
            UnlockStage::Groups => UnlockStepView::ActivateVolumeGroups,
            UnlockStage::Scanning => UnlockStepView::Reload,
            UnlockStage::Waiting => UnlockStepView::Sleep { seconds: POLL_SECONDS },
            UnlockStage::Shown => UnlockStepView::Finished(Ok(())),
            UnlockStage::Failed => UnlockStepView::Finished(
                Err(EncryptionErrorView::Cryptsetup(text_or_nothing(self.failure))),
            ),
            UnlockStage::TimedOut => UnlockStepView::Finished(Err(EncryptionErrorView::Timeout)),
        }
    }

    /// The job after its next step was taken with this outcome, the
    /// snapshot being `g` then. A device that cannot be opened ends the
    /// job; the volume groups count for nothing; after a reload the job
    /// ends where a device map of the wanted name is in the snapshot, and
    /// waits where none is, unless no wait is left to it; after the wait,
    /// which is one wait less, comes the next reload.
    pub open spec fn after(self, outcome: Outcome, g: Graph) -> LuksUnlockView {
        match self.stage {
            UnlockStage::Opening => match outcome {
                Some(why) => LuksUnlockView {
                    stage: UnlockStage::Failed,
                    failure: Some(why),
                    ..self
                },
                None => LuksUnlockView { stage: UnlockStage::Groups, ..self },
            },
            UnlockStage::Groups => LuksUnlockView { stage: UnlockStage::Scanning, ..self },
            UnlockStage::Scanning => if !g.no_hit(Field::MapperName, self.dm_name) {
                LuksUnlockView { stage: UnlockStage::Shown, ..self }
            } else if self.waits_left == Some(0u32) {
                LuksUnlockView { stage: UnlockStage::TimedOut, ..self }
            } else {
                LuksUnlockView { stage: UnlockStage::Waiting, ..self }
            },
            UnlockStage::Waiting => LuksUnlockView {
                stage: UnlockStage::Scanning,
                waits_left: match self.waits_left {
                    Some(waits) => Some(
                        if waits > 0 {
                            (waits - 1) as u32
                        } else {
                            0
                        },
                    ),
                    None => None,
                },
                ..self
            },
            UnlockStage::Shown => self,
            UnlockStage::Failed => self,
            UnlockStage::TimedOut => self,
        }
    }

    /// The job after `n` steps were taken that went well, the snapshot
    /// being `g` all the while.
    pub open spec fn run(self, n: nat, g: Graph) -> LuksUnlockView
        decreases n,
    {
        if n == 0 {
            self
        } else {
            self.run((n - 1) as nat, g).after(None, g)
        }
    }
}

/// A job that may wait but so many times ends: where it is about to scan
/// with `waits` waits left, and the device map does not show, it gives up
/// after these waits, each followed by a scan, and one scan before them.
pub proof fn lemma_waits_are_bounded(job: LuksUnlockView, g: Graph, waits: u32)
    requires
        job.stage == UnlockStage::Scanning,
        job.waits_left == Some(waits),
        g.no_hit(Field::MapperName, job.dm_name),
    ensures
        job.run((2 * waits + 1) as nat, g).stage == UnlockStage::TimedOut,
        job.run((2 * waits + 1) as nat, g).step() == UnlockStepView::Finished(
            Err(EncryptionErrorView::Timeout),
        ),
    decreases waits,
{
    if waits == 0 {
        assert(job.run(0, g) == job);
    } else {
        let next = job.after(None, g).after(None, g);
        assert(next.stage == UnlockStage::Scanning);
        assert(next.waits_left == Some((waits - 1) as u32));
        assert(next.dm_name == job.dm_name);
        lemma_waits_are_bounded(next, g, (waits - 1) as u32);
        lemma_run_from(job, g, 2, (2 * (waits - 1) + 1) as nat);
        assert(job.run(1, g) == job.run(0, g).after(None, g));
        assert(job.run(2, g) == next);
    }
}

/// Taking `a` steps and then `b` is taking `a + b`.
pub proof fn lemma_run_from(job: LuksUnlockView, g: Graph, a: nat, b: nat)
    ensures
        job.run(a + b, g) == job.run(a, g).run(b, g),
    decreases b,
{
    if b > 0 {
        lemma_run_from(job, g, a, (b - 1) as nat);
        assert(job.run(a + b, g) == job.run((a + b - 1) as nat, g).after(None, g));
    }
}

/// The text, or the empty text where there is none.
pub open spec fn text_or_nothing(text: Outcome) -> Seq<char> {
    match text {
        Some(text) => text,
        None => Seq::empty(),
    }
}

impl View for LuksUnlock {
    type V = LuksUnlockView;

    closed spec fn view(&self) -> LuksUnlockView {
        LuksUnlockView {
            device: self.device@,
            dm_name: self.dm_name@,
            key: self.key@,
            stage: self.stage,
            failure: text_view(self.failure),
            waits_left: self.waits_left,
        }
    }
}

impl LuksUnlock {
    /// A job that has not begun, and that waits for the device map
    /// without end.
    pub fn new(device: String, dm_name: String, key: Vec<u8>) -> (r: Self)
        ensures
            r@ == (LuksUnlockView {
                device: device@,
                dm_name: dm_name@,
                key: key@,
                stage: UnlockStage::Opening,
                failure: None,
                waits_left: None,
            }),
    {
        LuksUnlock {
            device,
            dm_name,
            key,
            stage: UnlockStage::Opening,
            failure: None,
            waits_left: None,
        }
    }

    /// The same job, but one that gives up when the device map has not
    /// shown after `waits` more waits.
    pub fn within(self, waits: u32) -> (r: Self)
        ensures
            r@ == (LuksUnlockView { waits_left: Some(waits), ..self@ }),
    {
        LuksUnlock {
            device: self.device,
            dm_name: self.dm_name,
            key: self.key,
            stage: self.stage,
            failure: self.failure,
            waits_left: Some(waits),
        }
    }

    /// What the caller does next.
    pub fn next(&self) -> (r: UnlockStep)
        ensures
            r@ == self@.step(),
    {
        match self.stage {
            UnlockStage::Opening => UnlockStep::Activate {
                device: self.device.clone(),
                dm_name: self.dm_name.clone(),
                key: copied(&self.key),
            },
            UnlockStage::Groups => UnlockStep::ActivateVolumeGroups,
            UnlockStage::Scanning => UnlockStep::Reload,
            UnlockStage::Waiting => UnlockStep::Sleep { seconds: POLL_SECONDS },
            UnlockStage::Shown => UnlockStep::Finished(Ok(())),
            UnlockStage::Failed => UnlockStep::Finished(
                Err(
                    EncryptionError::Cryptsetup(
                        match &self.failure {
                            Some(why) => why.clone(),
                            None => String::new(),
                        },
                    ),
                ),
            ),
            UnlockStage::TimedOut => UnlockStep::Finished(Err(EncryptionError::Timeout)),
        }
    }

    /// Takes note of how the step that `next` gave went. After a reload,
    /// `manager` is the manager that was reloaded.
    pub fn record(&mut self, outcome: Result<(), String>, manager: &DiskManager)
        requires
            manager.wf(),
        ensures
            final(self)@ == old(self)@.after(outcome_view(outcome), manager@),
    {
        match self.stage {
            UnlockStage::Opening => match outcome {
                Err(why) => {
                    self.stage = UnlockStage::Failed;
                    self.failure = Some(why);
                },
                Ok(_) => {
                    self.stage = UnlockStage::Groups;
                },
            },
            UnlockStage::Groups => {
                self.stage = UnlockStage::Scanning;
            },
            UnlockStage::Scanning => {
                match manager.dm_by_dm_name(self.dm_name.as_str()) {
                    Some(_) => {
                        self.stage = UnlockStage::Shown;
                    },
                    None => {
                        let spent = match self.waits_left {
                            Some(waits) => waits == 0,
                            None => false,
                        };
                        if spent {
                            self.stage = UnlockStage::TimedOut;
                        } else {
                            self.stage = UnlockStage::Waiting;
                        }
                    },
                }
            },
            UnlockStage::Waiting => {
                self.stage = UnlockStage::Scanning;
                self.waits_left = match self.waits_left {
                    Some(waits) => Some(if waits > 0 { waits - 1 } else { 0 }),
                    None => None,
                };
            },
            UnlockStage::Shown => {},
            UnlockStage::Failed => {},
            UnlockStage::TimedOut => {},
        }
    }
}

} // verus!
