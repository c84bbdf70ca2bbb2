//! Fail-closed audit paths.
//!
//! After `max_consecutive_errors` consecutive failures the writer signals fatal
//! through a [`FatalHook`] and stops. Health is `ok`, `degraded` or `failed`.
use super::writer::WriterError;
use vstd::prelude::*;

verus! {

/// Health of the audit log.
#[derive(Clone, Copy, Debug, PartialEq, Eq, Structural)]
pub enum AuditHealth {
    /// Shown as `ok`.
    Healthy,
    Degraded,
    Failed,
}

impl AuditHealth {
    /// The health as shown in reports.
    pub open spec fn spec_str(self) -> Seq<char> {
        match self {
            AuditHealth::Healthy => "ok"@,
            AuditHealth::Degraded => "degraded"@,
            AuditHealth::Failed => "failed"@,
        }
    }

    /// The number of this health.
    pub open spec fn number(self) -> u8 {
        match self {
            AuditHealth::Healthy => 0,
            AuditHealth::Degraded => 1,
            AuditHealth::Failed => 2,
        }
    }

    /// The health with this number; other numbers are healthy.
    pub open spec fn numbered(v: u8) -> AuditHealth {
        if v == 1 {
            AuditHealth::Degraded
        } else if v == 2 {
            AuditHealth::Failed
        } else {
            AuditHealth::Healthy
        }
    }

    /// The health as shown in reports.
    #[must_use]
    pub fn as_str(self) -> (r: &'static str)
        ensures
            r@ == self.spec_str(),
    {
        match self {
            AuditHealth::Healthy => "ok",
            AuditHealth::Degraded => "degraded",
            AuditHealth::Failed => "failed",
        }
    }

    /// The health with this number; other numbers are healthy.
    pub fn from_u8(v: u8) -> (r: AuditHealth)
        ensures
            r == Self::numbered(v),
    {
        if v == 1 {
            AuditHealth::Degraded
        } else if v == 2 {
            AuditHealth::Failed
        } else {
            AuditHealth::Healthy
        }
    }

    /// The number of this health.
    pub fn to_u8(self) -> (r: u8)
        ensures
            r == self.number(),
    {
        match self {
            AuditHealth::Healthy => 0,
            AuditHealth::Degraded => 1,
            AuditHealth::Failed => 2,
        }
    }
}

/// A health reads back from its number.
pub proof fn health_round_trip(h: AuditHealth)
    ensures
        AuditHealth::numbered(h.number()) == h,
{
}

/// Called when consecutive writer failures reach `max_consecutive_errors`.
pub trait FatalHook {
    /// The code to leave the process with; `None` to stay.
    fn on_fatal(&mut self, err: &WriterError) -> Option<i32>;
}

/// The exit code of a process that cannot record.
pub const FATAL_EXIT_CODE: i32 = 78;

/// Production hook: the process must not keep serving without a durable audit
/// log, so it exits.
#[derive(Debug, Default, Clone, Copy, PartialEq, Eq, Structural)]
pub struct ProcessExitFatal;

impl FatalHook for ProcessExitFatal {
    fn on_fatal(&mut self, _err: &WriterError) -> (r: Option<i32>)
        ensures
            r == Some(FATAL_EXIT_CODE),
    {
        Some(FATAL_EXIT_CODE)
    }
}

/// Records that fatal was signaled and stays.
#[derive(Debug, PartialEq, Eq, Structural)]
pub struct RecordingFatal {
    fired: bool,
}

impl RecordingFatal {
    /// Fatal was signaled.
    pub closed spec fn has_fired(self) -> bool {
        self.fired
    }

    /// A hook that has not fired.
    #[must_use]
    pub fn new() -> (r: RecordingFatal)
        ensures
            !r.has_fired(),
    {
        RecordingFatal { fired: false }
    }

    /// Whether fatal was signaled.
    #[must_use]
    pub fn fired(&self) -> (r: bool)
        ensures
            r == self.has_fired(),
    {
        self.fired
    }
}

impl Default for RecordingFatal {
    fn default() -> (r: RecordingFatal)
        ensures
            !r.has_fired(),
    {
        RecordingFatal::new()
    }
}

impl FatalHook for RecordingFatal {
    fn on_fatal(&mut self, _err: &WriterError) -> (r: Option<i32>)
        ensures
            final(self).has_fired(),
            r is None,
    {
        self.fired = true;
        None
    }
}

/// Injectable IO fault points (full disk, unwritable rotation). An error is the
/// raw OS error to synthesize.
pub trait IoFault {
    /// Checked immediately before a framed batch is written.
    fn before_write(&mut self) -> Result<(), i32>;

    /// Checked immediately before a sync.
    fn before_sync(&mut self) -> Result<(), i32>;

    /// Checked immediately before opening the next rotated log file.
    fn before_rotate_open(&mut self) -> Result<(), i32>;
}

/// Injects no fault.
#[derive(Debug, Default, Clone, Copy, PartialEq, Eq, Structural)]
pub struct NoopIoFault;

impl IoFault for NoopIoFault {
    fn before_write(&mut self) -> (r: Result<(), i32>)
        ensures
            r is Ok,
    {
        Ok(())
    }

    fn before_sync(&mut self) -> (r: Result<(), i32>)
        ensures
            r is Ok,
    {
        Ok(())
    }

    fn before_rotate_open(&mut self) -> (r: Result<(), i32>)
        ensures
            r is Ok,
    {
        Ok(())
    }
}

/// Which IO site an [`InjectedIoFault`] trips.
#[derive(Clone, Copy, Debug, PartialEq, Eq, Structural)]
pub enum FaultSite {
    Write,
    Sync,
    RotateOpen,
}

/// Returns an error at a chosen site, always or for a number of hits.
#[derive(Debug, PartialEq, Eq)]
pub struct InjectedIoFault {
    site: FaultSite,
    /// Remaining failures; `u32::MAX` means unlimited.
    remaining: u32,
    raw_os: i32,
}

/// What an [`InjectedIoFault`] will do.
pub ghost struct FaultModel {
    pub site: FaultSite,
    pub remaining: u32,
    pub raw_os: i32,
}

impl View for InjectedIoFault {
    type V = FaultModel;

    closed spec fn view(&self) -> FaultModel {
        FaultModel { site: self.site, remaining: self.remaining, raw_os: self.raw_os }
    }
}

impl FaultModel {
    /// What happens at a site.
    pub open spec fn at(self, site: FaultSite) -> Result<(), i32> {
        if self.site == site && self.remaining > 0 {
            Err(self.raw_os)
        } else {
            Ok(())
        }
    }

    /// What is left to do after a site.
    pub open spec fn after(self, site: FaultSite) -> FaultModel {
        if self.site == site && 0 < self.remaining < u32::MAX {
            FaultModel { remaining: (self.remaining - 1) as u32, ..self }
        } else {
            self
        }
    }
}

impl InjectedIoFault {
    /// Always fail at `site` with `raw_os` (e.g. `28` ENOSPC, `5` EIO, `13` EACCES).
    #[must_use]
    pub fn always(site: FaultSite, raw_os: i32) -> (r: InjectedIoFault)
        ensures
            r@ == (FaultModel { site, remaining: u32::MAX, raw_os }),
    {
        InjectedIoFault { site, remaining: u32::MAX, raw_os }
    }

    /// Fail the next `count` attempts at `site`, then succeed.
    #[must_use]
    pub fn times(site: FaultSite, raw_os: i32, count: u32) -> (r: InjectedIoFault)
        ensures
            r@ == (FaultModel { site, remaining: count, raw_os }),
    {
        InjectedIoFault { site, remaining: count, raw_os }
    }

    fn trip(&mut self, site: FaultSite) -> (r: Result<(), i32>)
        ensures
            r == old(self)@.at(site),
            final(self)@ == old(self)@.after(site),
    {
        if self.site != site || self.remaining == 0 {
            return Ok(());
        }
        if self.remaining != u32::MAX {
            self.remaining = self.remaining - 1;
        }
        Err(self.raw_os)
    }
}

impl IoFault for InjectedIoFault {
    fn before_write(&mut self) -> (r: Result<(), i32>)
        ensures
            r == old(self)@.at(FaultSite::Write),
            final(self)@ == old(self)@.after(FaultSite::Write),
    {
        self.trip(FaultSite::Write)
    }

    fn before_sync(&mut self) -> (r: Result<(), i32>)
        ensures
            r == old(self)@.at(FaultSite::Sync),
            final(self)@ == old(self)@.after(FaultSite::Sync),
    {
        self.trip(FaultSite::Sync)
    }

    fn before_rotate_open(&mut self) -> (r: Result<(), i32>)
        ensures
            r == old(self)@.at(FaultSite::RotateOpen),
            final(self)@ == old(self)@.after(FaultSite::RotateOpen),
    {
        self.trip(FaultSite::RotateOpen)
    }
}

/// `m` after `n` visits of its own site.
pub open spec fn after_hits(m: FaultModel, n: nat) -> FaultModel
    decreases n,
{
    if n == 0 {
        m
    } else {
        after_hits(m, (n - 1) as nat).after(m.site)
    }
}

/// A fault with a count fails exactly that often: visit number `n` (from 0)
/// of its site fails when `n` is below the count.
pub proof fn fault_fails_count_times(site: FaultSite, raw_os: i32, count: u32, n: nat)
    requires
        count < u32::MAX,
    ensures
        ({
            let m = FaultModel { site, remaining: count, raw_os };
            after_hits(m, n).at(site) == if n < count {
                Err::<(), i32>(raw_os)
            } else {
                Ok::<(), i32>(())
            }
        }),
{
    let m = FaultModel { site, remaining: count, raw_os };
    lemma_after_hits(m, n);
}

proof fn lemma_after_hits(m: FaultModel, n: nat)
    requires
        m.remaining < u32::MAX,
    ensures
        after_hits(m, n) == (FaultModel {
            remaining: if n >= m.remaining {
                0
            } else {
                (m.remaining - n) as u32
            },
            ..m
        }),
    decreases n,
{
    if n > 0 {
        lemma_after_hits(m, (n - 1) as nat);
    }
}

/// Fail-closed settings of the writer task.
#[derive(Debug, Clone)]
pub struct FailClosedConfig<H, F> {
    /// After this many consecutive writer failures, invoke the fatal hook.
    pub max_consecutive_errors: u32,
    pub fatal: H,
    pub fault: F,
}

/// Consecutive failures until fatal, by default.
pub const DEFAULT_MAX_CONSECUTIVE_ERRORS: u32 = 3;

impl Default for FailClosedConfig<ProcessExitFatal, NoopIoFault> {
    fn default() -> (r: FailClosedConfig<ProcessExitFatal, NoopIoFault>)
        ensures
            r.max_consecutive_errors == 3,
    {
        FailClosedConfig {
            max_consecutive_errors: DEFAULT_MAX_CONSECUTIVE_ERRORS,
            fatal: ProcessExitFatal,
            fault: NoopIoFault,
        }
    }
}

impl<F: IoFault> FailClosedConfig<RecordingFatal, F> {
    /// Settings that record fatal instead of exiting, with a fault injected.
    #[must_use]
    pub fn for_test(fault: F, fatal: RecordingFatal) -> (r: FailClosedConfig<RecordingFatal, F>)
        ensures
            r.max_consecutive_errors == 3,
            r.fatal == fatal,
            r.fault == fault,
    {
        FailClosedConfig { max_consecutive_errors: DEFAULT_MAX_CONSECUTIVE_ERRORS, fatal, fault }
    }
}

impl<H, F> FailClosedConfig<H, F> {
    /// The same settings with another number of failures, at least one.
    #[must_use]
    pub fn with_max_consecutive_errors(self, n: u32) -> (r: FailClosedConfig<H, F>)
        ensures
            r.max_consecutive_errors == (if n == 0 {
                1
            } else {
                n
            }),
            r.fatal == self.fatal,
            r.fault == self.fault,
    {
        FailClosedConfig {
            max_consecutive_errors: if n == 0 {
                1
            } else {
                n
            },
            fatal: self.fatal,
            fault: self.fault,
        }
    }
}

/// A fault without a count fails on every visit of its site.
pub proof fn fault_without_count_always_fails(site: FaultSite, raw_os: i32, n: nat)
    ensures
        ({
            let m = FaultModel { site, remaining: u32::MAX, raw_os };
            after_hits(m, n) == m && m.at(site) == Err::<(), i32>(raw_os)
        }),
    decreases n,
{
    if n > 0 {
        fault_without_count_always_fails(site, raw_os, (n - 1) as nat);
    }
}

/// A fault is silent at the other sites, and is not used up there.
pub proof fn other_sites_are_not_touched(m: FaultModel, site: FaultSite)
    requires
        site != m.site,
    ensures
        m.at(site) is Ok,
        m.after(site) == m,
{
}

/// Each health is shown by its own word.
pub proof fn healths_are_told_apart(h: AuditHealth)
    ensures
        h.spec_str() == "ok"@ <==> h is Healthy,
        h.spec_str() == "degraded"@ <==> h is Degraded,
        h.spec_str() == "failed"@ <==> h is Failed,
        h.number() == 0 <==> h is Healthy,
        h.number() == 1 <==> h is Degraded,
        h.number() == 2 <==> h is Failed,
        forall|v: u8| v > 2 ==> #[trigger] AuditHealth::numbered(v) is Healthy,
{
    reveal_strlit("ok");
    reveal_strlit("degraded");
    reveal_strlit("failed");
    assert("ok"@.len() == 2);
    assert("degraded"@.len() == 8);
    assert("failed"@.len() == 6);
}

} // verus!
