//! Whether uptime monitoring runs: one switch, with the flag that stops the
//! per-target ping loops of the current run.
use vstd::prelude::*;
use crate::cancel::CancelToken;

verus! {

/// The monitoring switch: on while a run is active, holding the token that
/// stops that run's loops.
pub struct MonitorSwitch {
    active: bool,
    cancel: Option<CancelToken>,
}

impl MonitorSwitch {
    /// Whether a monitoring run is active.
    pub closed spec fn view(&self) -> bool {
        self.active
    }

    /// A switch in the off position.
    pub fn new() -> (r: Self)
        ensures
            !r.view(),
    {
        MonitorSwitch { active: false, cancel: None }
    }

    /// Whether monitoring is running.
    pub fn is_monitoring(&self) -> (b: bool)
        ensures
            b == self.view(),
    {
        self.active
    }

    /// Stops the current run, if any: its token is cancelled and the switch
    /// is off.
    pub fn stop_monitoring(&mut self)
        ensures
            !final(self).view(),
    {
        if let Some(token) = self.cancel.take() {
            token.cancel();
        }
        self.active = false;
    }

    /// Starts a run over `target_count` enabled targets, stopping any earlier
    /// run first. With no target it is an error and monitoring stays off;
    /// otherwise the switch is on and the token for the new run's loops is
    /// returned.
    pub fn start_monitoring(&mut self, target_count: usize) -> (r: Result<CancelToken, String>)
        ensures
            r is Err <==> target_count == 0,
            r is Err ==> r->Err_0@ == "No enabled monitoring targets configured"@ && !final(self).view(),
            r is Ok ==> final(self).view(),
    {
        self.stop_monitoring();
        if target_count == 0 {
            return Err(String::from_str("No enabled monitoring targets configured"));
        }
        let token = CancelToken::new();
        self.cancel = Some(token.clone());
        self.active = true;
        Ok(token)
    }
}

impl Default for MonitorSwitch {
    fn default() -> (r: Self)
        ensures
            !r.view(),
    {
        MonitorSwitch::new()
    }
}

} // verus!
