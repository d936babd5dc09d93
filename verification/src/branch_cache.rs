//! The per-branch cache of game files: which cache belongs to which branch,
//! and what to do with each entry while hardlinking into or cleaning a
//! directory tree.

use vstd::prelude::*;
use crate::steam::{Branch, SteamError};
use vstd::string::StringExecFns;

verus! {

/// The name of the marker file that a complete cache holds.
pub open spec fn sentinel_name() -> Seq<char> {
    ".cache_complete"@
}

/// The name of the marker file that a complete cache holds.
pub fn sentinel() -> (r: &'static str)
    ensures
        r@ == sentinel_name(),
{
    ".cache_complete"
}

/// Information about a cached branch.
#[derive(Debug, Clone, Copy, PartialEq, Eq)]
pub struct CacheInfo {
    pub branch: Branch,
    pub file_count: usize,
}

/// The file count of the first cache listed for `branch`.
pub open spec fn cached_count(s: Seq<CacheInfo>, b: Branch) -> Option<usize>
    decreases s.len(),
{
    if s.len() == 0 {
        None
    } else if s[0].branch == b {
        Some(s[0].file_count)
    } else {
        cached_count(s.drop_first(), b)
    }
}

/// The number of files in the cache of `branch`, if one is listed.
pub fn get_cached_file_count(caches: &Vec<CacheInfo>, branch: &Branch) -> (r: Option<usize>)
    ensures
        r == cached_count(caches@, *branch),
{
    let mut i: usize = 0;
    assert(caches@.skip(0) =~= caches@);
    while i < caches.len()
        invariant
            i <= caches@.len(),
            cached_count(caches@, *branch) == cached_count(caches@.skip(i as int), *branch),
        decreases caches@.len() - i,
    {
        assert(caches@.skip(i as int)[0] == caches@[i as int]);
        if caches[i].branch == *branch {
            return Some(caches[i].file_count);
        }
        assert(caches@.skip(i as int).drop_first() =~= caches@.skip(i + 1));
        i += 1;
    }
    None
}

/// The branch whose cache a directory under the cache root holds: a
/// directory named after a branch (any case) that holds the marker file.
pub fn cache_dir_branch(dir_name: &str, has_sentinel: bool) -> (r: Option<Branch>)
    ensures
        match r {
            Some(b) => has_sentinel && crate::steam::branch_of(crate::text::lower_text(dir_name@))
                == Some(b),
            None => !has_sentinel || crate::steam::branch_of(crate::text::lower_text(dir_name@))
                is None,
        },
{
    match Branch::from_str(dir_name) {
        Ok(b) => if has_sentinel {
            Some(b)
        } else {
            None
        },
        Err(SteamError::UnknownBranch(_)) => None,
        Err(SteamError::InstallDirNotFound) => None,
    }
}

/// What to do with one entry while hardlinking a tree.
#[derive(Debug, Clone, Copy, PartialEq, Eq)]
pub enum LinkAction {
    /// The marker file: leave it out.
    Skip,
    /// A directory: hardlink its contents into the same name.
    Descend,
    /// A file: replace any file of that name by a hardlink to it.
    Link,
}

/// Whether `name` is the marker file's name.
pub fn is_sentinel(name: &str) -> (b: bool)
    ensures
        b == (name@ == sentinel_name()),
{
    String::from_str(name) == String::from_str(sentinel())
}

/// What to do with the entry `name` of the tree being hardlinked.
pub fn link_action(name: &str, is_dir: bool) -> (a: LinkAction)
    ensures
        a == (if name@ == sentinel_name() {
            LinkAction::Skip
        } else if is_dir {
            LinkAction::Descend
        } else {
            LinkAction::Link
        }),
{
    if is_sentinel(name) {
        LinkAction::Skip
    } else if is_dir {
        LinkAction::Descend
    } else {
        LinkAction::Link
    }
}

/// What to do with one entry of the game directory after a restore, given
/// the cache it was restored from.
#[derive(Debug, Clone, Copy, PartialEq, Eq)]
pub enum ExtraAction {
    /// Leave it.
    Keep,
    /// A directory the cache also has: clean its contents the same way.
    Descend,
    /// A directory the cache has no directory for: remove it.
    RemoveDir,
    /// A file the cache has nothing of that name for: remove it.
    RemoveFile,
}

/// What to do with the entry `name` of the game directory, which is a
/// directory when `is_dir`, where the cache has an entry of that name when
/// `in_cache` (a directory when `cache_is_dir`).
pub fn extra_action(name: &str, is_dir: bool, in_cache: bool, cache_is_dir: bool) -> (a:
    ExtraAction)
    ensures
        a == (if name@ == sentinel_name() {
            ExtraAction::Keep
        } else if is_dir {
            if cache_is_dir {
                ExtraAction::Descend
            } else {
                ExtraAction::RemoveDir
            }
        } else if !in_cache {
            ExtraAction::RemoveFile
        } else {
            ExtraAction::Keep
        }),
{
    if is_sentinel(name) {
        ExtraAction::Keep
    } else if is_dir {
        if cache_is_dir {
            ExtraAction::Descend
        } else {
            ExtraAction::RemoveDir
        }
    } else if !in_cache {
        ExtraAction::RemoveFile
    } else {
        ExtraAction::Keep
    }
}


/// Why a cache cannot be created now.
#[derive(Debug, Clone, Copy, PartialEq, Eq)]
pub enum CacheError {
    /// Steam is running: the installation may be incomplete.
    SteamRunning,
    /// A download or update is pending for the branch.
    DownloadPending,
}

/// Whether the current installation may be cached: Steam must be closed and
/// no download or update may be pending.
pub fn check_cache_create(steam_running: bool, download_pending: bool) -> (r: Result<(), CacheError>)
    ensures
        r == (if steam_running {
            Err(CacheError::SteamRunning)
        } else if download_pending {
            Err(CacheError::DownloadPending)
        } else {
            Ok(())
        }),
{
    if steam_running {
        Err(CacheError::SteamRunning)
    } else if download_pending {
        Err(CacheError::DownloadPending)
    } else {
        Ok(())
    }
}

/// The cache listed for a branch is the first listed entry of that branch:
/// its file count is reported, and no branch without an entry is reported.
pub proof fn law_cached_count(s: Seq<CacheInfo>, b: Branch)
    ensures
        match cached_count(s, b) {
            Some(n) => exists|i: int|
                0 <= i < s.len() && #[trigger] s[i].branch == b && s[i].file_count == n && forall|j: int|
                    0 <= j < i ==> (#[trigger] s[j]).branch != b,
            None => forall|i: int| 0 <= i < s.len() ==> (#[trigger] s[i]).branch != b,
        },
    decreases s.len(),
{
    if s.len() > 0 {
        let s1 = s.drop_first();
        law_cached_count(s1, b);
        if s[0].branch != b {
            match cached_count(s1, b) {
                Some(n) => {
                    let i = choose|i: int|
                        0 <= i < s1.len() && #[trigger] s1[i].branch == b && s1[i].file_count == n
                            && forall|j: int| 0 <= j < i ==> (#[trigger] s1[j]).branch != b;
                    assert(s[i + 1] == s1[i]);
                    assert forall|j: int| 0 <= j < i + 1 implies (#[trigger] s[j]).branch != b by {
                        if j > 0 {
                            assert(s[j] == s1[j - 1]);
                        }
                    }
                    assert(s[i + 1].branch == b);
                },
                None => {
                    assert forall|i: int| 0 <= i < s.len() implies (#[trigger] s[i]).branch != b by {
                        if i > 0 {
                            assert(s[i] == s1[i - 1]);
                        }
                    }
                },
            }
        } else {
            assert(s[0].branch == b);
        }
    }
}

} // verus!
