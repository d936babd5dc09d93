//! The decisions of a branch switch. The caller performs each action this
//! module chooses (checking Steam, backing up saves, restoring the cache or
//! rewriting the manifest, downloading, activating the SMM profile) and
//! reports how it went; the next action follows from that report alone.

use vstd::prelude::*;
use crate::steam::{branch_name, Branch};
use crate::text::push_text;
use vstd::string::StringExecFns;

verus! {

/// How a switch is to be done.
#[derive(Debug, Clone, Copy, PartialEq, Eq)]
pub struct SwitchConfig {
    /// Skip the backup of saves.
    pub no_backup: bool,
    /// Download through SteamCMD rather than the Steam client.
    pub steamcmd: bool,
    /// A Steam user name was given (SteamCMD needs one).
    pub has_username: bool,
}

/// Why a switch stops with an error of its own.
#[derive(Debug, Clone, Copy, PartialEq, Eq, Structural)]
pub enum SwitchFailure {
    /// Steam is running.
    SteamRunning,
    /// SteamCMD was chosen without a user name.
    UsernameRequired,
}

/// The next thing a switch does.
#[derive(Debug, Clone, Copy, PartialEq, Eq, Structural)]
pub enum SwitchAction {
    /// The game is on the target branch already: nothing to do.
    AlreadyOnTarget,
    /// Find out whether Steam is running; report `true` when it is.
    CheckSteamRunning,
    /// Back up the saves (a failure is only a warning); report anything.
    BackupSaves,
    /// Find out whether the install directory is known and the target branch
    /// has a complete cache; report `true` when both hold.
    CheckCache,
    /// Restore the game files and manifest from the cache; report success.
    RestoreFromCache,
    /// Set the manifest's `betakey` after a failed restore; report success
    /// (a failure ends the switch with that error).
    SetBetakeyAfterFailedRestore,
    /// Set the manifest's `betakey`; report success (a failure ends the
    /// switch with that error).
    SetBetakey,
    /// Download the branch with SteamCMD into the install directory; report
    /// success (a failure ends the switch with that error).
    SteamcmdDownload,
    /// Deploy the branch's mods and cache the download (failures are only
    /// warnings); report anything.
    DeployAndCacheDownload,
    /// Start the Steam client; report success.
    LaunchSteam,
    /// Wait for Steam to finish downloading; report success.
    WaitForDownload,
    /// Wait until Steam is closed; report anything.
    WaitForSteamClose,
    /// Find the install directory and, when found, deploy the mods and cache
    /// the download; report whether the directory was found.
    DeployAndCacheInstalled,
    /// Activate the SMM profile linked to the target branch (failures are
    /// only warnings); report anything.
    ActivateProfile { used_cache: bool },
    /// Done: the game files came from the cache when `used_cache`.
    Finish { used_cache: bool },
    /// Done after a SteamCMD download.
    FinishAfterSteamcmd,
    /// Stop with the error of the last action.
    Abort,
    /// Stop with an error of the switch's own.
    Fail(SwitchFailure),
}

/// The action ends the switch.
pub open spec fn is_final(a: SwitchAction) -> bool {
    match a {
        SwitchAction::AlreadyOnTarget | SwitchAction::Finish { .. } | SwitchAction::FinishAfterSteamcmd
        | SwitchAction::Abort | SwitchAction::Fail(_) => true,
        _ => false,
    }
}

/// The action changes the game files, the manifest, or the Steam client's state.
pub open spec fn changes_game(a: SwitchAction) -> bool {
    match a {
        SwitchAction::RestoreFromCache | SwitchAction::SetBetakeyAfterFailedRestore
        | SwitchAction::SetBetakey | SwitchAction::SteamcmdDownload
        | SwitchAction::DeployAndCacheDownload | SwitchAction::LaunchSteam
        | SwitchAction::DeployAndCacheInstalled | SwitchAction::ActivateProfile { .. } => true,
        _ => false,
    }
}

/// The first action of a switch from `current` to `target`.
pub open spec fn first_action(current: Branch, target: Branch) -> SwitchAction {
    if current == target {
        SwitchAction::AlreadyOnTarget
    } else {
        SwitchAction::CheckSteamRunning
    }
}

/// The action after `last`, given the report `ok` on it.
pub open spec fn next_action(cfg: SwitchConfig, last: SwitchAction, ok: bool) -> SwitchAction {
    match last {
        SwitchAction::CheckSteamRunning => if ok {
            SwitchAction::Fail(SwitchFailure::SteamRunning)
        } else if cfg.no_backup {
            SwitchAction::CheckCache
        } else {
            SwitchAction::BackupSaves
        },
        SwitchAction::BackupSaves => SwitchAction::CheckCache,
        SwitchAction::CheckCache => if ok {
            SwitchAction::RestoreFromCache
        } else {
            SwitchAction::SetBetakey
        },
        SwitchAction::RestoreFromCache => if ok {
            SwitchAction::ActivateProfile { used_cache: true }
        } else {
            SwitchAction::SetBetakeyAfterFailedRestore
        },
        SwitchAction::SetBetakeyAfterFailedRestore => if ok {
            SwitchAction::ActivateProfile { used_cache: false }
        } else {
            SwitchAction::Abort
        },
        SwitchAction::SetBetakey => if !ok {
            SwitchAction::Abort
        } else if cfg.steamcmd {
            if cfg.has_username {
                SwitchAction::SteamcmdDownload
            } else {
                SwitchAction::Fail(SwitchFailure::UsernameRequired)
            }
        } else {
            SwitchAction::LaunchSteam
        },
        SwitchAction::SteamcmdDownload => if ok {
            SwitchAction::DeployAndCacheDownload
        } else {
            SwitchAction::Abort
        },
        SwitchAction::DeployAndCacheDownload => SwitchAction::FinishAfterSteamcmd,
        SwitchAction::LaunchSteam => if ok {
            SwitchAction::WaitForDownload
        } else {
            SwitchAction::ActivateProfile { used_cache: false }
        },
        SwitchAction::WaitForDownload => if ok {
            SwitchAction::WaitForSteamClose
        } else {
            SwitchAction::ActivateProfile { used_cache: false }
        },
        SwitchAction::WaitForSteamClose => SwitchAction::DeployAndCacheInstalled,
        SwitchAction::DeployAndCacheInstalled => SwitchAction::ActivateProfile { used_cache: ok },
        SwitchAction::ActivateProfile { used_cache } => SwitchAction::Finish { used_cache },
        _ => last,
    }
}

/// The first action of a switch from `current` to `target`.
pub fn start_switch(current: &Branch, target: &Branch) -> (a: SwitchAction)
    ensures
        a == first_action(*current, *target),
{
    if *current == *target {
        SwitchAction::AlreadyOnTarget
    } else {
        SwitchAction::CheckSteamRunning
    }
}

/// The action after `last`, given the report `ok` on it.
pub fn next_switch_action(cfg: &SwitchConfig, last: SwitchAction, ok: bool) -> (a: SwitchAction)
    ensures
        a == next_action(*cfg, last, ok),
{
    match last {
        SwitchAction::CheckSteamRunning => if ok {
            SwitchAction::Fail(SwitchFailure::SteamRunning)
        } else if cfg.no_backup {
            SwitchAction::CheckCache
        } else {
            SwitchAction::BackupSaves
        },
        SwitchAction::BackupSaves => SwitchAction::CheckCache,
        SwitchAction::CheckCache => if ok {
            SwitchAction::RestoreFromCache
        } else {
            SwitchAction::SetBetakey
        },
        SwitchAction::RestoreFromCache => if ok {
            SwitchAction::ActivateProfile { used_cache: true }
        } else {
            SwitchAction::SetBetakeyAfterFailedRestore
        },
        SwitchAction::SetBetakeyAfterFailedRestore => if ok {
            SwitchAction::ActivateProfile { used_cache: false }
        } else {
            SwitchAction::Abort
        },
        SwitchAction::SetBetakey => if !ok {
            SwitchAction::Abort
        } else if cfg.steamcmd {
            if cfg.has_username {
                SwitchAction::SteamcmdDownload
            } else {
                SwitchAction::Fail(SwitchFailure::UsernameRequired)
            }
        } else {
            SwitchAction::LaunchSteam
        },
        SwitchAction::SteamcmdDownload => if ok {
            SwitchAction::DeployAndCacheDownload
        } else {
            SwitchAction::Abort
        },
        SwitchAction::DeployAndCacheDownload => SwitchAction::FinishAfterSteamcmd,
        SwitchAction::LaunchSteam => if ok {
            SwitchAction::WaitForDownload
        } else {
            SwitchAction::ActivateProfile { used_cache: false }
        },
        SwitchAction::WaitForDownload => if ok {
            SwitchAction::WaitForSteamClose
        } else {
            SwitchAction::ActivateProfile { used_cache: false }
        },
        SwitchAction::WaitForSteamClose => SwitchAction::DeployAndCacheInstalled,
        SwitchAction::DeployAndCacheInstalled => SwitchAction::ActivateProfile { used_cache: ok },
        SwitchAction::ActivateProfile { used_cache } => SwitchAction::Finish { used_cache },
        _ => last,
    }
}

/// The label of the backup taken before switching to `target`.
pub fn auto_backup_label(target: &Branch) -> (r: String)
    ensures
        r@ == "Auto-backup before switch to "@ + branch_name(*target),
{
    let mut label = String::from_str("Auto-backup before switch to ");
    push_text(&mut label, target.name());
    label
}

/// One line of the plan a dry run shows.
#[derive(Debug, Clone, Copy, PartialEq, Eq)]
pub enum PlanStep {
    /// 1. The manifest's `betakey` is updated.
    SetBetakey,
    /// 2. The saves are backed up.
    Backup,
    /// The game files are restored from the cache (of `files` files, when known).
    RestoreFromCache { number: u8, files: Option<usize> },
    /// The branch is downloaded, through SteamCMD or Steam.
    Download { number: u8, steamcmd: bool },
    /// SteamCMD was chosen without a user name.
    UsernameMissing,
    /// The SMM profile of the branch is activated.
    ActivateProfile { number: u8 },
}

/// The plan a dry run shows, given whether the install directory is known,
/// whether the target branch has a complete cache (of `cached_files` files
/// when known), and whether a profile is linked to it.
pub open spec fn plan_of(
    cfg: SwitchConfig,
    install_dir_known: bool,
    cached: bool,
    cached_files: Option<usize>,
    profile_linked: bool,
) -> Seq<PlanStep> {
    let n: u8 = if cfg.no_backup {
        3
    } else {
        4
    };
    let head = if cfg.no_backup {
        seq![PlanStep::SetBetakey]
    } else {
        seq![PlanStep::SetBetakey, PlanStep::Backup]
    };
    if !install_dir_known {
        head
    } else {
        let fetch = if cached {
            seq![PlanStep::RestoreFromCache { number: n, files: cached_files }]
        } else if cfg.steamcmd && !cfg.has_username {
            seq![PlanStep::Download { number: n, steamcmd: true }, PlanStep::UsernameMissing]
        } else {
            seq![PlanStep::Download { number: n, steamcmd: cfg.steamcmd }]
        };
        let activate = if profile_linked {
            seq![PlanStep::ActivateProfile { number: (n + 1) as u8 }]
        } else {
            seq![]
        };
        head + fetch + activate
    }
}

/// The plan a dry run shows.
pub fn dry_run_plan(
    cfg: &SwitchConfig,
    install_dir_known: bool,
    cached: bool,
    cached_files: Option<usize>,
    profile_linked: bool,
) -> (r: Vec<PlanStep>)
    ensures
        r@ == plan_of(*cfg, install_dir_known, cached, cached_files, profile_linked),
{
    let n: u8 = if cfg.no_backup {
        3
    } else {
        4
    };
    let mut r: Vec<PlanStep> = Vec::new();
    r.push(PlanStep::SetBetakey);
    if !cfg.no_backup {
        r.push(PlanStep::Backup);
    }
    if !install_dir_known {
        return r;
    }
    if cached {
        r.push(PlanStep::RestoreFromCache { number: n, files: cached_files });
    } else {
        r.push(PlanStep::Download { number: n, steamcmd: cfg.steamcmd });
        if cfg.steamcmd && !cfg.has_username {
            r.push(PlanStep::UsernameMissing);
        }
    }
    if profile_linked {
        r.push(PlanStep::ActivateProfile { number: n + 1 });
    }
    assert(r@ =~= plan_of(*cfg, install_dir_known, cached, cached_files, profile_linked));
    r
}

/// A switch stops with the error of its last action only after a failed
/// manifest write or a failed SteamCMD download: a failed Steam launch or a
/// failed wait for the download goes on to activate the SMM profile without
/// the cache.
pub proof fn law_switch_aborts_only_on_write_or_steamcmd(
    cfg: SwitchConfig,
    last: SwitchAction,
    ok: bool,
)
    ensures
        next_action(cfg, last, ok) == SwitchAction::Abort && last != SwitchAction::Abort ==> !ok && (
        last == SwitchAction::SetBetakey || last == SwitchAction::SetBetakeyAfterFailedRestore
            || last == SwitchAction::SteamcmdDownload),
        next_action(cfg, SwitchAction::LaunchSteam, false) == (SwitchAction::ActivateProfile {
            used_cache: false,
        }),
        next_action(cfg, SwitchAction::WaitForDownload, false) == (SwitchAction::ActivateProfile {
            used_cache: false,
        }),
        !is_final(last) && last != SwitchAction::SetBetakey && last
            != SwitchAction::SetBetakeyAfterFailedRestore && last != SwitchAction::SteamcmdDownload
            ==> next_action(cfg, last, ok) != SwitchAction::Abort,
{
}

/// Which step leads where: the switch fails because Steam runs exactly when
/// the Steam check reports it running; it fails for a missing user name
/// exactly when the manifest was written and SteamCMD was chosen without
/// one; SteamCMD downloads only when chosen with a user name, and the Steam
/// client is launched only when SteamCMD was not chosen; the game files
/// count as coming from the cache only after a successful restore or a
/// successful install-and-cache step.
pub proof fn law_switch_transitions(cfg: SwitchConfig, last: SwitchAction, ok: bool)
    ensures
        next_action(cfg, last, ok) == SwitchAction::Fail(SwitchFailure::SteamRunning) && last
            != SwitchAction::Fail(SwitchFailure::SteamRunning) <==> last
            == SwitchAction::CheckSteamRunning && ok,
        next_action(cfg, last, ok) == SwitchAction::Fail(SwitchFailure::UsernameRequired) && last
            != SwitchAction::Fail(SwitchFailure::UsernameRequired) <==> last == SwitchAction::SetBetakey
            && ok && cfg.steamcmd && !cfg.has_username,
        next_action(cfg, last, ok) == SwitchAction::SteamcmdDownload ==> cfg.steamcmd
            && cfg.has_username,
        next_action(cfg, last, ok) == SwitchAction::LaunchSteam ==> !cfg.steamcmd,
        next_action(cfg, last, ok) == (SwitchAction::ActivateProfile { used_cache: true }) ==> ok && (
        last == SwitchAction::RestoreFromCache || last == SwitchAction::DeployAndCacheInstalled),
        next_action(cfg, last, ok) == SwitchAction::RestoreFromCache ==> last
            == SwitchAction::CheckCache && ok,
{
}

/// A dry run's download step goes through SteamCMD exactly when SteamCMD was
/// chosen, and the plan downloads exactly when the install directory is
/// known and the target branch has no complete cache.
pub proof fn law_dry_run_download_backend(
    cfg: SwitchConfig,
    install_dir_known: bool,
    cached: bool,
    cached_files: Option<usize>,
    profile_linked: bool,
)
    ensures
        forall|i: int|
            0 <= i < plan_of(cfg, install_dir_known, cached, cached_files, profile_linked).len()
                ==> (#[trigger] plan_of(cfg, install_dir_known, cached, cached_files, profile_linked)[i]
                matches PlanStep::Download { steamcmd, .. } ==> steamcmd == cfg.steamcmd),
        (exists|i: int|
            0 <= i < plan_of(cfg, install_dir_known, cached, cached_files, profile_linked).len()
                && #[trigger] plan_of(cfg, install_dir_known, cached, cached_files, profile_linked)[i] is Download)
            <==> install_dir_known && !cached,
{
    let p = plan_of(cfg, install_dir_known, cached, cached_files, profile_linked);
    if install_dir_known && !cached {
        let k: int = if cfg.no_backup {
            1
        } else {
            2
        };
        assert(p[k] is Download);
    }
}

/// The course of a switch, for every configuration: once Steam is found
/// not running the saves are backed up (unless backups are off; a failed
/// backup is only a warning) and the cache checked; a complete cache is
/// restored, and a failed restore still writes the manifest; otherwise the
/// manifest is written and the branch fetched through SteamCMD or the Steam
/// client as chosen; a successful SteamCMD download deploys and caches, then
/// finishes; a finished Steam download waits for Steam to close, then
/// deploys and caches; and profile activation always leads to the end,
/// telling whether the cache was used.
pub proof fn law_switch_flow(cfg: SwitchConfig, ok: bool, used_cache: bool)
    ensures
        next_action(cfg, SwitchAction::CheckSteamRunning, false) == (if cfg.no_backup {
            SwitchAction::CheckCache
        } else {
            SwitchAction::BackupSaves
        }),
        next_action(cfg, SwitchAction::BackupSaves, ok) == SwitchAction::CheckCache,
        next_action(cfg, SwitchAction::CheckCache, true) == SwitchAction::RestoreFromCache,
        next_action(cfg, SwitchAction::CheckCache, false) == SwitchAction::SetBetakey,
        next_action(cfg, SwitchAction::RestoreFromCache, false)
            == SwitchAction::SetBetakeyAfterFailedRestore,
        next_action(cfg, SwitchAction::SetBetakeyAfterFailedRestore, true) == (
        SwitchAction::ActivateProfile { used_cache: false }),
        cfg.steamcmd && cfg.has_username ==> next_action(cfg, SwitchAction::SetBetakey, true)
            == SwitchAction::SteamcmdDownload,
        !cfg.steamcmd ==> next_action(cfg, SwitchAction::SetBetakey, true)
            == SwitchAction::LaunchSteam,
        next_action(cfg, SwitchAction::SteamcmdDownload, true)
            == SwitchAction::DeployAndCacheDownload,
        next_action(cfg, SwitchAction::DeployAndCacheDownload, ok)
            == SwitchAction::FinishAfterSteamcmd,
        next_action(cfg, SwitchAction::LaunchSteam, true) == SwitchAction::WaitForDownload,
        next_action(cfg, SwitchAction::WaitForDownload, true) == SwitchAction::WaitForSteamClose,
        next_action(cfg, SwitchAction::WaitForSteamClose, ok)
            == SwitchAction::DeployAndCacheInstalled,
        next_action(cfg, SwitchAction::DeployAndCacheInstalled, ok) == (
        SwitchAction::ActivateProfile { used_cache: ok }),
        next_action(cfg, SwitchAction::ActivateProfile { used_cache }, ok) == (SwitchAction::Finish {
            used_cache,
        }),
{
}

/// A switch starts by checking whether Steam runs, unless the game is on the
/// target branch already, when there is nothing to do.
pub proof fn law_switch_first_action(current: Branch, target: Branch)
    ensures
        first_action(current, target) == SwitchAction::AlreadyOnTarget <==> current == target,
        current != target ==> first_action(current, target) == SwitchAction::CheckSteamRunning,
        is_final(first_action(current, target)) <==> current == target,
{
}

/// The steps of a dry run's plan: the manifest step first, then the backup
/// unless backups are off; when the install directory is known, the restore
/// (when cached) or the download, numbered 4 (3 without the backup step),
/// a warning when SteamCMD has no user name, and the profile step, numbered
/// one more, when a profile is linked.
pub proof fn law_dry_run_plan_steps(
    cfg: SwitchConfig,
    install_dir_known: bool,
    cached: bool,
    cached_files: Option<usize>,
    profile_linked: bool,
)
    ensures
        ({
            let p = plan_of(cfg, install_dir_known, cached, cached_files, profile_linked);
            let h: int = if cfg.no_backup {
                1
            } else {
                2
            };
            let n: u8 = if cfg.no_backup {
                3
            } else {
                4
            };
            &&& p[0] == PlanStep::SetBetakey
            &&& !cfg.no_backup ==> p[1] == PlanStep::Backup
            &&& forall|i: int| 0 <= i < p.len() && #[trigger] p[i] == PlanStep::Backup ==> !cfg.no_backup
            &&& !install_dir_known ==> p.len() == h
            &&& install_dir_known && cached ==> p[h] == (PlanStep::RestoreFromCache {
                number: n,
                files: cached_files,
            })
            &&& install_dir_known && !cached ==> p[h] == (PlanStep::Download {
                number: n,
                steamcmd: cfg.steamcmd,
            })
            &&& (exists|i: int| 0 <= i < p.len() && #[trigger] p[i] == PlanStep::UsernameMissing)
                <==> install_dir_known && !cached && cfg.steamcmd && !cfg.has_username
            &&& (exists|i: int| 0 <= i < p.len() && #[trigger] p[i] is ActivateProfile)
                <==> install_dir_known && profile_linked
            &&& install_dir_known && profile_linked ==> p.last() == (PlanStep::ActivateProfile {
                number: (n + 1) as u8,
            })
        }),
{
    let p = plan_of(cfg, install_dir_known, cached, cached_files, profile_linked);
    let h: int = if cfg.no_backup {
        1
    } else {
        2
    };
    if install_dir_known && !cached && cfg.steamcmd && !cfg.has_username {
        assert(p[h + 1] == PlanStep::UsernameMissing);
    }
    if install_dir_known && profile_linked {
        assert(p[p.len() - 1] is ActivateProfile);
    }
}

/// The actions a switch from `current` to `target` takes when the caller
/// reports `reports` on them in turn; it stops at a final action.
pub open spec fn switch_trace(
    cfg: SwitchConfig,
    current: Branch,
    target: Branch,
    reports: Seq<bool>,
) -> Seq<SwitchAction>
    decreases reports.len(),
{
    if reports.len() == 0 {
        seq![first_action(current, target)]
    } else {
        let t = switch_trace(cfg, current, target, reports.drop_last());
        if is_final(t.last()) {
            t
        } else {
            t.push(next_action(cfg, t.last(), reports.last()))
        }
    }
}

/// A measure that every step of a switch decreases.
pub open spec fn remaining_steps(a: SwitchAction) -> nat {
    match a {
        SwitchAction::CheckSteamRunning => 11,
        SwitchAction::BackupSaves => 10,
        SwitchAction::CheckCache => 9,
        SwitchAction::RestoreFromCache => 8,
        SwitchAction::SetBetakey => 7,
        SwitchAction::SetBetakeyAfterFailedRestore => 6,
        SwitchAction::LaunchSteam => 6,
        SwitchAction::SteamcmdDownload => 5,
        SwitchAction::WaitForDownload => 5,
        SwitchAction::DeployAndCacheDownload => 4,
        SwitchAction::WaitForSteamClose => 4,
        SwitchAction::DeployAndCacheInstalled => 3,
        SwitchAction::ActivateProfile { .. } => 2,
        _ => 0,
    }
}

/// Every step of a switch that is not over moves closer to its end: a switch
/// takes at most eleven actions after the first.
pub proof fn law_switch_terminates(cfg: SwitchConfig, a: SwitchAction, ok: bool)
    ensures
        !is_final(a) ==> remaining_steps(next_action(cfg, a, ok)) < remaining_steps(a),
        is_final(a) <==> remaining_steps(a) == 0,
{
}

/// The shape of every switch's start: it checks Steam first, stops when
/// Steam runs, and otherwise backs up (unless told not to) and then checks
/// the cache, before it changes anything.
proof fn lemma_trace_start(cfg: SwitchConfig, current: Branch, target: Branch, reports: Seq<bool>)
    requires
        current != target,
    ensures
        switch_trace(cfg, current, target, reports).len() >= 1,
        switch_trace(cfg, current, target, reports).len() <= reports.len() + 1,
        switch_trace(cfg, current, target, reports)[0] == SwitchAction::CheckSteamRunning,
        reports.len() >= 1 ==> switch_trace(cfg, current, target, reports).len() >= 2,
        reports.len() >= 1 ==> switch_trace(cfg, current, target, reports)[1] == next_action(
            cfg,
            SwitchAction::CheckSteamRunning,
            reports[0],
        ),
        reports.len() >= 1 && reports[0] ==> switch_trace(cfg, current, target, reports).len()
            == 2,
        reports.len() >= 2 && !reports[0] && !cfg.no_backup ==> switch_trace(
            cfg,
            current,
            target,
            reports,
        ).len() >= 3 && switch_trace(cfg, current, target, reports)[2] == SwitchAction::CheckCache,
        forall|i: int|
            0 <= i < switch_trace(cfg, current, target, reports).len() - 1 ==> !is_final(
                #[trigger] switch_trace(cfg, current, target, reports)[i],
            ),
    decreases reports.len(),
{
    if reports.len() > 0 {
        let r = reports.drop_last();
        lemma_trace_start(cfg, current, target, r);
        let t = switch_trace(cfg, current, target, r);
        if reports.len() >= 2 {
            assert(r[0] == reports[0]);
        }
        if reports.len() >= 3 {
            assert(r[1] == reports[1]);
        }
        if reports.len() == 2 && !reports[0] && !cfg.no_backup {
            assert(t.len() == 2);
            assert(t[1] == SwitchAction::BackupSaves);
        }
    }
}

/// A switch changes nothing before Steam has been found not running, and,
/// unless told not to back up, before it has backed up the saves: every
/// action that changes the game comes after a first report that Steam is not
/// running, and after a backup when one is due.
pub proof fn law_switch_checks_before_changes(
    cfg: SwitchConfig,
    current: Branch,
    target: Branch,
    reports: Seq<bool>,
    i: int,
)
    requires
        0 <= i < switch_trace(cfg, current, target, reports).len(),
        changes_game(switch_trace(cfg, current, target, reports)[i]),
    ensures
        current != target,
        switch_trace(cfg, current, target, reports)[0] == SwitchAction::CheckSteamRunning,
        reports.len() >= 1 && !reports[0],
        !cfg.no_backup ==> 1 < i && switch_trace(cfg, current, target, reports)[1]
            == SwitchAction::BackupSaves,
{
    if current == target {
        assert(switch_trace(cfg, current, target, reports) =~= seq![SwitchAction::AlreadyOnTarget])
            by {
            lemma_trace_already(cfg, current, target, reports);
        }
    }
    lemma_trace_start(cfg, current, target, reports);
    let t = switch_trace(cfg, current, target, reports);
    if !cfg.no_backup {
        if i == 2 {
            assert(t[2] == SwitchAction::CheckCache);
        }
    }
}

/// Where a switch's backups and Steam checks can stand: the check only first,
/// a backup only second, and no backup when backups are off.
proof fn lemma_trace_backups(cfg: SwitchConfig, current: Branch, target: Branch, reports: Seq<bool>)
    ensures
        forall|i: int|
            0 <= i < switch_trace(cfg, current, target, reports).len() && i != 1 ==> #[trigger] switch_trace(
                cfg,
                current,
                target,
                reports,
            )[i] != SwitchAction::BackupSaves,
        forall|i: int|
            1 <= i < switch_trace(cfg, current, target, reports).len() ==> #[trigger] switch_trace(
                cfg,
                current,
                target,
                reports,
            )[i] != SwitchAction::CheckSteamRunning,
        cfg.no_backup ==> forall|i: int|
            0 <= i < switch_trace(cfg, current, target, reports).len() ==> #[trigger] switch_trace(
                cfg,
                current,
                target,
                reports,
            )[i] != SwitchAction::BackupSaves,
    decreases reports.len(),
{
    if reports.len() > 0 {
        let r = reports.drop_last();
        lemma_trace_backups(cfg, current, target, r);
        let t = switch_trace(cfg, current, target, r);
        if !is_final(t.last()) {
            let a = next_action(cfg, t.last(), reports.last());
            lemma_backup_follows_check(cfg, t.last(), reports.last());
            let u = t.push(a);
            assert(switch_trace(cfg, current, target, reports) == u);
            assert(t.len() >= 1) by {
                lemma_trace_len(cfg, current, target, r);
            }
            assert forall|i: int| 0 <= i < t.len() implies #[trigger] u[i] == t[i] by {}
        }
    }
}

proof fn lemma_trace_len(cfg: SwitchConfig, current: Branch, target: Branch, reports: Seq<bool>)
    ensures
        switch_trace(cfg, current, target, reports).len() >= 1,
    decreases reports.len(),
{
    if reports.len() > 0 {
        lemma_trace_len(cfg, current, target, reports.drop_last());
    }
}

/// The number of backups of saves among the actions `t`.
pub open spec fn backup_count(t: Seq<SwitchAction>) -> nat
    decreases t.len(),
{
    if t.len() == 0 {
        0
    } else {
        backup_count(t.drop_last()) + if t.last() == SwitchAction::BackupSaves {
            1nat
        } else {
            0nat
        }
    }
}

proof fn lemma_backup_count_at_one(t: Seq<SwitchAction>)
    requires
        forall|i: int| 0 <= i < t.len() && i != 1 ==> #[trigger] t[i] != SwitchAction::BackupSaves,
    ensures
        backup_count(t) == (if t.len() >= 2 && t[1] == SwitchAction::BackupSaves {
            1nat
        } else {
            0nat
        }),
    decreases t.len(),
{
    if t.len() > 0 {
        let u = t.drop_last();
        assert forall|i: int| 0 <= i < u.len() && i != 1 implies #[trigger] u[i]
            != SwitchAction::BackupSaves by {
            assert(u[i] == t[i]);
        }
        lemma_backup_count_at_one(u);
        if t.len() >= 3 {
            assert(u[1] == t[1]);
        }
    }
}

/// A switch backs up the saves at most once, never when told not to, and
/// exactly once when it is not told not to and changes anything.
pub proof fn law_switch_backs_up_once(
    cfg: SwitchConfig,
    current: Branch,
    target: Branch,
    reports: Seq<bool>,
)
    ensures
        backup_count(switch_trace(cfg, current, target, reports)) <= 1,
        cfg.no_backup ==> backup_count(switch_trace(cfg, current, target, reports)) == 0,
        !cfg.no_backup && (exists|i: int|
            0 <= i < switch_trace(cfg, current, target, reports).len() && changes_game(
                #[trigger] switch_trace(cfg, current, target, reports)[i],
            )) ==> backup_count(switch_trace(cfg, current, target, reports)) == 1,
{
    let t = switch_trace(cfg, current, target, reports);
    lemma_trace_backups(cfg, current, target, reports);
    lemma_backup_count_at_one(t);
    if !cfg.no_backup && exists|i: int| 0 <= i < t.len() && changes_game(#[trigger] t[i]) {
        let i = choose|i: int| 0 <= i < t.len() && changes_game(#[trigger] t[i]);
        law_switch_checks_before_changes(cfg, current, target, reports, i);
    }
}

/// A backup only follows the check that Steam is not running, and only when
/// backups are on; no step leads back to that check.
proof fn lemma_backup_follows_check(cfg: SwitchConfig, a: SwitchAction, ok: bool)
    ensures
        next_action(cfg, a, ok) == SwitchAction::BackupSaves ==> a == SwitchAction::CheckSteamRunning
            && !cfg.no_backup,
        next_action(cfg, a, ok) != SwitchAction::CheckSteamRunning,
{
}

proof fn lemma_trace_already(cfg: SwitchConfig, current: Branch, target: Branch, reports: Seq<bool>)
    requires
        current == target,
    ensures
        switch_trace(cfg, current, target, reports) == seq![SwitchAction::AlreadyOnTarget],
    decreases reports.len(),
{
    if reports.len() > 0 {
        lemma_trace_already(cfg, current, target, reports.drop_last());
    }
}

} // verus!
