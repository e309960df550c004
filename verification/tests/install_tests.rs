use webfishing_installer::install::{install_step, InstallAction, InstallStage};

#[test]
fn stages_advance_when_condition_clears() {
    let (s, a) = install_step(InstallStage::WaitingForSteamToClose, true);
    assert_eq!(s, InstallStage::WaitingForSteamToClose);
    assert_eq!(a, InstallAction::SteamStillRunning);
    assert_eq!(a.wait_seconds(), 5);
    let (s, a) = install_step(s, false);
    assert_eq!((s, a), (InstallStage::WaitingForSteamToLaunch, InstallAction::SteamClosed));
    let (s, a) = install_step(s, true);
    assert_eq!((s, a), (InstallStage::WaitingForSteamToLaunch, InstallAction::SteamNotLaunched));
    assert_eq!(a.wait_seconds(), 10);
    let (s, a) = install_step(s, false);
    assert_eq!((s, a), (InstallStage::Downloading, InstallAction::SteamLaunched));
    let (s, a) = install_step(s, true);
    assert_eq!((s, a), (InstallStage::Downloading, InstallAction::StillDownloading));
    let (s, a) = install_step(s, false);
    assert_eq!((s, a), (InstallStage::Installed, InstallAction::Finish));
    assert_eq!(install_step(s, true), (InstallStage::Installed, InstallAction::Finish));
    assert_eq!(InstallAction::Finish.wait_seconds(), 0);
}
