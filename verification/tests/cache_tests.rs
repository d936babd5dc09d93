use ficswitch::branch_cache::{
    cache_dir_branch, check_cache_create, extra_action, get_cached_file_count, link_action,
    sentinel, CacheError, CacheInfo, ExtraAction, LinkAction,
};
use ficswitch::steam::Branch;

#[test]
fn cached_count_first_match() {
    let caches = vec![
        CacheInfo { branch: Branch::Experimental, file_count: 7 },
        CacheInfo { branch: Branch::Stable, file_count: 1183 },
        CacheInfo { branch: Branch::Stable, file_count: 3 },
    ];
    assert_eq!(get_cached_file_count(&caches, &Branch::Stable), Some(1183));
    assert_eq!(get_cached_file_count(&caches[..1].to_vec(), &Branch::Stable), None);
}

#[test]
fn cache_dir_names() {
    assert_eq!(cache_dir_branch("stable", true), Some(Branch::Stable));
    assert_eq!(cache_dir_branch("Experimental", true), Some(Branch::Experimental));
    assert_eq!(cache_dir_branch("stable", false), None);
    assert_eq!(cache_dir_branch("other", true), None);
}

#[test]
fn entry_actions() {
    assert_eq!(sentinel(), ".cache_complete");
    assert_eq!(link_action(".cache_complete", false), LinkAction::Skip);
    assert_eq!(link_action("FactoryGame", true), LinkAction::Descend);
    assert_eq!(link_action("a.pak", false), LinkAction::Link);
    assert_eq!(extra_action(".cache_complete", false, false, false), ExtraAction::Keep);
    assert_eq!(extra_action("d", true, true, true), ExtraAction::Descend);
    assert_eq!(extra_action("d", true, true, false), ExtraAction::RemoveDir);
    assert_eq!(extra_action("f", false, false, false), ExtraAction::RemoveFile);
    assert_eq!(extra_action("f", false, true, false), ExtraAction::Keep);
}

#[test]
fn cache_create_preconditions() {
    assert_eq!(check_cache_create(true, true), Err(CacheError::SteamRunning));
    assert_eq!(check_cache_create(false, true), Err(CacheError::DownloadPending));
    assert_eq!(check_cache_create(false, false), Ok(()));
}
