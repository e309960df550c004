//! Waiting for Steam while the game installs: the decisions of the installer's
//! polling loop, as a function from stage and observation to the next stage
//! and what to do.

use vstd::prelude::*;

verus! {

/// Where the wait for the game's installation stands.
#[derive(Debug, Clone, Copy, PartialEq, Eq, Structural)]
pub enum InstallStage {
    /// The app manifest is written; Steam must close to pick it up.
    WaitingForSteamToClose,
    /// Steam is closed; it must be launched again to see the game.
    WaitingForSteamToLaunch,
    /// Steam knows the game; its download directory must go away.
    Downloading,
    /// The game is installed.
    Installed,
}

/// What the installer does next.
#[derive(Debug, Clone, Copy, PartialEq, Eq, Structural)]
pub enum InstallAction {
    /// Say that Steam is still running, wait 5 seconds, then look again.
    SteamStillRunning,
    /// Say that Steam is closed and must be launched again.
    SteamClosed,
    /// Say that Steam is not launched yet, wait 10 seconds, then look again.
    SteamNotLaunched,
    /// Say that Steam is launched and the game downloading.
    SteamLaunched,
    /// Say that the game is still downloading, wait 10 seconds, then look again.
    StillDownloading,
    /// Nothing is left to wait for.
    Finish,
}

impl InstallAction {
    /// The seconds to wait after this action before looking again.
    pub fn wait_seconds(&self) -> (r: u64)
        ensures
            r == match *self {
                InstallAction::SteamStillRunning => 5u64,
                InstallAction::SteamNotLaunched => 10u64,
                InstallAction::StillDownloading => 10u64,
                _ => 0u64,
            },
    {
        match self {
            InstallAction::SteamStillRunning => 5,
            InstallAction::SteamNotLaunched => 10,
            InstallAction::StillDownloading => 10,
            _ => 0,
        }
    }
}

/// The next stage, and what to do, from `stage` with `pending` observed.
pub open spec fn install_transition(stage: InstallStage, pending: bool) -> (InstallStage, InstallAction) {
    match stage {
        InstallStage::WaitingForSteamToClose => if pending {
            (InstallStage::WaitingForSteamToClose, InstallAction::SteamStillRunning)
        } else {
            (InstallStage::WaitingForSteamToLaunch, InstallAction::SteamClosed)
        },
        InstallStage::WaitingForSteamToLaunch => if pending {
            (InstallStage::WaitingForSteamToLaunch, InstallAction::SteamNotLaunched)
        } else {
            (InstallStage::Downloading, InstallAction::SteamLaunched)
        },
        InstallStage::Downloading => if pending {
            (InstallStage::Downloading, InstallAction::StillDownloading)
        } else {
            (InstallStage::Installed, InstallAction::Finish)
        },
        InstallStage::Installed => (InstallStage::Installed, InstallAction::Finish),
    }
}

/// One step of the wait. `pending` is what the current stage waits on: Steam
/// running (while waiting for it to close), the game unknown to Steam (while
/// waiting for it to launch), the download directory present (while
/// downloading). A stage is left as soon as its condition no longer holds.
pub fn install_step(stage: InstallStage, pending: bool) -> (r: (InstallStage, InstallAction))
    ensures
        r == install_transition(stage, pending),
{
    match stage {
        InstallStage::WaitingForSteamToClose => if pending {
            (InstallStage::WaitingForSteamToClose, InstallAction::SteamStillRunning)
        } else {
            (InstallStage::WaitingForSteamToLaunch, InstallAction::SteamClosed)
        },
        InstallStage::WaitingForSteamToLaunch => if pending {
            (InstallStage::WaitingForSteamToLaunch, InstallAction::SteamNotLaunched)
        } else {
            (InstallStage::Downloading, InstallAction::SteamLaunched)
        },
        InstallStage::Downloading => if pending {
            (InstallStage::Downloading, InstallAction::StillDownloading)
        } else {
            (InstallStage::Installed, InstallAction::Finish)
        },
        InstallStage::Installed => (InstallStage::Installed, InstallAction::Finish),
    }
}

/// The order of the stages.
pub open spec fn stage_rank(s: InstallStage) -> int {
    match s {
        InstallStage::WaitingForSteamToClose => 0,
        InstallStage::WaitingForSteamToLaunch => 1,
        InstallStage::Downloading => 2,
        InstallStage::Installed => 3,
    }
}

/// The wait only moves forward: a step keeps the stage and waits exactly when
/// the stage's condition still holds, and otherwise moves to the next stage;
/// once installed it stays installed.
pub proof fn law_install_progress(stage: InstallStage, pending: bool)
    ensures
        stage_rank(install_transition(stage, pending).0) >= stage_rank(stage),
        stage != InstallStage::Installed ==> (pending <==> install_transition(stage, pending).0 == stage),
        stage != InstallStage::Installed && !pending ==> stage_rank(install_transition(stage, pending).0)
            == stage_rank(stage) + 1,
        stage == InstallStage::Installed ==> install_transition(stage, pending) == (
            InstallStage::Installed,
            InstallAction::Finish,
        ),
{
}

} // verus!
