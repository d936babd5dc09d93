use ficswitch::steam::{download_wait_step, progress_bar, Branch, DownloadProgress, WaitStep};
use ficswitch::switch::{
    auto_backup_label, dry_run_plan, next_switch_action, start_switch, PlanStep, SwitchAction,
    SwitchConfig, SwitchFailure,
};

fn run(cfg: SwitchConfig, current: Branch, target: Branch, reports: &[bool]) -> Vec<SwitchAction> {
    let mut trace = vec![start_switch(&current, &target)];
    for r in reports {
        let last = *trace.last().unwrap();
        let next = next_switch_action(&cfg, last, *r);
        if next == last {
            break;
        }
        trace.push(next);
    }
    trace
}

const STEAM: SwitchConfig = SwitchConfig { no_backup: false, steamcmd: false, has_username: false };

#[test]
fn switch_already_on_target() {
    assert_eq!(run(STEAM, Branch::Stable, Branch::Stable, &[false]), vec![SwitchAction::AlreadyOnTarget]);
}

#[test]
fn switch_stops_when_steam_runs() {
    assert_eq!(
        run(STEAM, Branch::Stable, Branch::Experimental, &[true, true]),
        vec![SwitchAction::CheckSteamRunning, SwitchAction::Fail(SwitchFailure::SteamRunning)]
    );
}

#[test]
fn switch_from_cache() {
    assert_eq!(
        run(STEAM, Branch::Stable, Branch::Experimental, &[false, true, true, true, true]),
        vec![
            SwitchAction::CheckSteamRunning,
            SwitchAction::BackupSaves,
            SwitchAction::CheckCache,
            SwitchAction::RestoreFromCache,
            SwitchAction::ActivateProfile { used_cache: true },
            SwitchAction::Finish { used_cache: true },
        ]
    );
}

#[test]
fn switch_without_cache_through_steam() {
    let cfg = SwitchConfig { no_backup: true, ..STEAM };
    assert_eq!(
        run(cfg, Branch::Experimental, Branch::Stable, &[false, false, true, true, true, true, true, true]),
        vec![
            SwitchAction::CheckSteamRunning,
            SwitchAction::CheckCache,
            SwitchAction::SetBetakey,
            SwitchAction::LaunchSteam,
            SwitchAction::WaitForDownload,
            SwitchAction::WaitForSteamClose,
            SwitchAction::DeployAndCacheInstalled,
            SwitchAction::ActivateProfile { used_cache: true },
            SwitchAction::Finish { used_cache: true },
        ]
    );
}

#[test]
fn switch_steamcmd_paths() {
    let cfg = SwitchConfig { no_backup: true, steamcmd: true, has_username: false };
    assert_eq!(
        run(cfg, Branch::Stable, Branch::Experimental, &[false, false, true])[3],
        SwitchAction::Fail(SwitchFailure::UsernameRequired)
    );
    let cfg = SwitchConfig { has_username: true, ..cfg };
    assert_eq!(
        *run(cfg, Branch::Stable, Branch::Experimental, &[false, false, true, true, true]).last().unwrap(),
        SwitchAction::FinishAfterSteamcmd
    );
    assert_eq!(
        *run(cfg, Branch::Stable, Branch::Experimental, &[false, false, true, false]).last().unwrap(),
        SwitchAction::Abort
    );
}

#[test]
fn switch_restore_failure_falls_back() {
    assert_eq!(
        run(STEAM, Branch::Stable, Branch::Experimental, &[false, true, true, false, true, true]).last(),
        Some(&SwitchAction::Finish { used_cache: false })
    );
}

#[test]
fn backup_label_text() {
    assert_eq!(auto_backup_label(&Branch::Experimental), "Auto-backup before switch to experimental");
}

#[test]
fn dry_run_plans() {
    assert_eq!(
        dry_run_plan(&STEAM, true, true, Some(1183), true),
        vec![
            PlanStep::SetBetakey,
            PlanStep::Backup,
            PlanStep::RestoreFromCache { number: 4, files: Some(1183) },
            PlanStep::ActivateProfile { number: 5 },
        ]
    );
    let cfg = SwitchConfig { no_backup: true, steamcmd: true, has_username: false };
    assert_eq!(
        dry_run_plan(&cfg, true, false, None, false),
        vec![PlanStep::SetBetakey, PlanStep::Download { number: 3, steamcmd: true }, PlanStep::UsernameMissing]
    );
    assert_eq!(dry_run_plan(&cfg, false, true, None, true), vec![PlanStep::SetBetakey]);
}

#[test]
fn download_wait_steps() {
    let p = DownloadProgress { bytes_downloaded: 50, bytes_total: 200 };
    assert_eq!(download_wait_step(false, true, p), (true, WaitStep::Progress { percent: 25, filled: 5 }));
    assert_eq!(download_wait_step(true, false, p), (true, WaitStep::Finished));
    let none = DownloadProgress { bytes_downloaded: 0, bytes_total: 0 };
    assert_eq!(download_wait_step(false, false, none), (false, WaitStep::Waiting));
    assert_eq!(download_wait_step(true, false, none), (true, WaitStep::Finished));
    assert_eq!(progress_bar(5), format!("[{}{}]", "█".repeat(5), "░".repeat(15)));
}

fn count_backups(cfg: &SwitchConfig, reports: &[bool]) -> usize {
    let mut a = start_switch(&Branch::Stable, &Branch::Experimental);
    let mut n = 0;
    for &ok in reports {
        if a == SwitchAction::BackupSaves {
            n += 1;
        }
        a = next_switch_action(cfg, a, ok);
    }
    if a == SwitchAction::BackupSaves {
        n += 1;
    }
    n
}

#[test]
fn switch_backs_up_once_unless_told_not_to() {
    let on = SwitchConfig { no_backup: false, steamcmd: false, has_username: false };
    let off = SwitchConfig { no_backup: true, steamcmd: false, has_username: false };
    let reports = [false, true, true, true, true, true, true, true, true, true, true];
    assert_eq!(count_backups(&on, &reports), 1);
    assert_eq!(count_backups(&off, &reports), 0);
    assert_eq!(count_backups(&on, &[true, true, true]), 0);
}
