//! Deploying the mods of a branch's SMM profile into the game directory:
//! which profile and mods to deploy, which archive in SMM's download cache
//! holds a mod, and the name of the lock file SML reads.

use vstd::prelude::*;
use crate::order::{str_le, text_le};
use crate::profiles::{profile_for, profile_name_for_branch, BranchProfiles, ModEntry, SmmProfiles};
use crate::steam::Branch;
use crate::str_map::text_view;
use crate::text::{
    ends_with_text, lower_text, push_text, starts_with_text, str_ends_with, str_starts_with, texts,
    to_lowercase, ascii_lower,
};
use vstd::string::StringExecFns;
use vstd::utf8::is_ascii_chars;

verus! {

/// Deploy result summary.
#[derive(Debug, Clone)]
pub struct DeployResult {
    pub mods_deployed: Vec<String>,
    pub mods_missing: Vec<String>,
    pub sml_deployed: bool,
}

/// Errors of the deploy logic.
#[derive(Debug, Clone)]
pub enum DeployError {
    /// No SMM profile is linked to the branch (its name is given).
    NoProfileLinked(String),
    /// The linked profile is not one of SMM's.
    ProfileNotFound(String),
}

/// The archive name of a mod in SMM's download cache: the mod name and `_`,
/// then the version, then `_Windows.zip`.
pub open spec fn is_mod_zip(name: Seq<char>, mod_name: Seq<char>) -> bool {
    starts_with_text(name, mod_name + "_"@) && ends_with_text(name, "_Windows.zip"@)
}

/// Whether `name` is an archive of `mod_name`.
pub fn is_mod_zip_name(name: &str, mod_name: &str) -> (b: bool)
    ensures
        b == is_mod_zip(name@, mod_name@),
{
    let mut prefix = String::from_str(mod_name);
    push_text(&mut prefix, "_");
    str_starts_with(name, prefix.as_str()) && str_ends_with(name, "_Windows.zip")
}

/// The archive of `mod_name` among the cache's file names: the greatest
/// matching name, which is the latest version when several are cached.
pub fn find_mod_zip(file_names: &Vec<String>, mod_name: &str) -> (r: Option<String>)
    ensures
        match r {
            Some(z) => is_mod_zip(z@, mod_name@) && texts(file_names@).contains(z@) && forall|j: int|
                0 <= j < file_names@.len() && is_mod_zip(#[trigger] file_names@[j]@, mod_name@)
                    ==> text_le(file_names@[j]@, z@),
            None => forall|j: int|
                0 <= j < file_names@.len() ==> !is_mod_zip(#[trigger] file_names@[j]@, mod_name@),
        },
{
    let mut best: Option<usize> = None;
    let mut i: usize = 0;
    while i < file_names.len()
        invariant
            i <= file_names@.len(),
            match best {
                Some(b) => b < i && is_mod_zip(file_names@[b as int]@, mod_name@) && forall|j: int|
                    0 <= j < i && is_mod_zip(#[trigger] file_names@[j]@, mod_name@) ==> text_le(
                        file_names@[j]@,
                        file_names@[b as int]@,
                    ),
                None => forall|j: int|
                    0 <= j < i ==> !is_mod_zip(#[trigger] file_names@[j]@, mod_name@),
            },
        decreases file_names@.len() - i,
    {
        if is_mod_zip_name(file_names[i].as_str(), mod_name) {
            match best {
                Some(b) => {
                    if !str_le(file_names[i].as_str(), file_names[b].as_str()) {
                        proof {
                            crate::order::lemma_text_le_total(
                                file_names@[i as int]@,
                                file_names@[b as int]@,
                            );
                            assert forall|j: int|
                                0 <= j < i + 1 && is_mod_zip(
                                    #[trigger] file_names@[j]@,
                                    mod_name@,
                                ) implies text_le(
                                file_names@[j]@,
                                file_names@[i as int]@,
                            ) by {
                                if j < i {
                                    crate::order::lemma_text_le_trans(
                                        file_names@[j]@,
                                        file_names@[b as int]@,
                                        file_names@[i as int]@,
                                    );
                                } else {
                                    crate::order::lemma_text_le_refl(file_names@[j]@);
                                }
                            }
                        }
                        best = Some(i);
                    }
                },
                None => {
                    proof {
                        crate::order::lemma_text_le_refl(file_names@[i as int]@);
                    }
                    best = Some(i);
                },
            }
        }
        i += 1;
    }
    match best {
        Some(b) => {
            assert(texts(file_names@)[b as int] == file_names@[b as int]@);
            Some(file_names[b].clone())
        },
        None => None,
    }
}

/// `z` is the archive `find_mod_zip` picks for `mod_name` among `names`.
pub open spec fn is_chosen_zip(names: Seq<Seq<char>>, mod_name: Seq<char>, z: Seq<char>) -> bool {
    is_mod_zip(z, mod_name) && names.contains(z) && forall|j: int|
        0 <= j < names.len() && is_mod_zip(#[trigger] names[j], mod_name) ==> text_le(names[j], z)
}

/// Some name of `names` is an archive of `mod_name`.
pub open spec fn has_mod_zip(names: Seq<Seq<char>>, mod_name: Seq<char>) -> bool {
    exists|j: int| 0 <= j < names.len() && is_mod_zip(#[trigger] names[j], mod_name)
}

/// The mods of `mods`, in order, that have an archive among `names` (when
/// `found`) or that have none (otherwise).
pub open spec fn mods_where(mods: Seq<Seq<char>>, names: Seq<Seq<char>>, found: bool) -> Seq<
    Seq<char>,
>
    decreases mods.len(),
{
    if mods.len() == 0 {
        seq![]
    } else if has_mod_zip(names, mods.last()) == found {
        mods_where(mods.drop_last(), names, found).push(mods.last())
    } else {
        mods_where(mods.drop_last(), names, found)
    }
}

/// Splits `mods` into those with an archive among `file_names`, each paired
/// with the archive `find_mod_zip` picks, and those without one; both in the
/// order of `mods`, so each mod lands in exactly one of the two lists.
pub fn sort_mods(mods: &Vec<String>, file_names: &Vec<String>) -> (r: (
    Vec<(String, String)>,
    Vec<String>,
))
    ensures
        r.0@.map_values(|p: (String, String)| p.0@) == mods_where(
            texts(mods@),
            texts(file_names@),
            true,
        ),
        forall|i: int|
            0 <= i < r.0@.len() ==> is_chosen_zip(
                texts(file_names@),
                #[trigger] r.0@[i].0@,
                r.0@[i].1@,
            ),
        texts(r.1@) == mods_where(texts(mods@), texts(file_names@), false),
        texts(mods@).no_duplicates() ==> r.0@.map_values(|p: (String, String)| p.0@).no_duplicates()
            && texts(r.1@).no_duplicates(),
{
    let ghost names = texts(file_names@);
    let mut found: Vec<(String, String)> = Vec::new();
    let mut missing: Vec<String> = Vec::new();
    let mut i: usize = 0;
    while i < mods.len()
        invariant
            i <= mods@.len(),
            names == texts(file_names@),
            found@.map_values(|p: (String, String)| p.0@) == mods_where(
                texts(mods@).take(i as int),
                names,
                true,
            ),
            forall|k: int|
                0 <= k < found@.len() ==> is_chosen_zip(names, #[trigger] found@[k].0@, found@[k].1@),
            texts(missing@) == mods_where(texts(mods@).take(i as int), names, false),
        decreases mods@.len() - i,
    {
        let ghost pre = texts(mods@).take(i as int);
        let ghost cur = texts(mods@).take(i + 1);
        assert(cur.drop_last() =~= pre);
        assert(cur.last() == mods@[i as int]@);
        let m = &mods[i];
        match find_mod_zip(file_names, m.as_str()) {
            Some(z) => {
                proof {
                    let j = choose|j: int| 0 <= j < names.len() && names[j] == z@;
                    assert(is_mod_zip(names[j], m@));
                    assert(has_mod_zip(names, m@));
                    assert forall|j: int|
                        0 <= j < names.len() && is_mod_zip(#[trigger] names[j], m@) implies text_le(
                        names[j],
                        z@,
                    ) by {
                        assert(names[j] == file_names@[j]@);
                    }
                }
                let ghost f0 = found@;
                found.push((m.clone(), z));
                assert(found@.map_values(|p: (String, String)| p.0@) =~= f0.map_values(
                    |p: (String, String)| p.0@,
                ).push(m@));
            },
            None => {
                proof {
                    assert(!has_mod_zip(names, m@)) by {
                        assert forall|j: int| 0 <= j < names.len() implies !is_mod_zip(
                            #[trigger] names[j],
                            m@,
                        ) by {
                            assert(names[j] == file_names@[j]@);
                        }
                    }
                }
                let ghost m0 = missing@;
                missing.push(m.clone());
                assert(texts(missing@) =~= texts(m0).push(m@));
            },
        }
        i += 1;
    }
    assert(texts(mods@).take(i as int) =~= texts(mods@));
    proof {
        lemma_mods_where_distinct(texts(mods@), names, true);
        lemma_mods_where_distinct(texts(mods@), names, false);
    }
    (found, missing)
}

/// The names of the enabled mods among `s`, in order.
pub open spec fn enabled_names(s: Seq<(Seq<char>, ModEntry)>) -> Seq<Seq<char>>
    decreases s.len(),
{
    if s.len() == 0 {
        seq![]
    } else if s.last().1.enabled {
        enabled_names(s.drop_last()).push(s.last().0)
    } else {
        enabled_names(s.drop_last())
    }
}

/// Each enabled name is the key of some entry.
proof fn lemma_enabled_names_keys(s: Seq<(Seq<char>, ModEntry)>)
    ensures
        forall|i: int|
            0 <= i < enabled_names(s).len() ==> exists|j: int|
                0 <= j < s.len() && #[trigger] s[j].0 == #[trigger] enabled_names(s)[i],
    decreases s.len(),
{
    if s.len() > 0 {
        let s0 = s.drop_last();
        lemma_enabled_names_keys(s0);
        let e = enabled_names(s);
        assert forall|i: int| 0 <= i < e.len() implies exists|j: int|
            0 <= j < s.len() && #[trigger] s[j].0 == #[trigger] e[i] by {
            if i < enabled_names(s0).len() {
                let j = choose|j: int| 0 <= j < s0.len() && #[trigger] s0[j].0 == enabled_names(s0)[i];
                assert(s[j] == s0[j]);
                assert(e[i] == enabled_names(s0)[i]);
            } else {
                assert(s[s.len() - 1].0 == e[i]);
            }
        }
    }
}

/// The enabled names of entries with distinct keys are distinct.
proof fn lemma_enabled_names_distinct(s: Seq<(Seq<char>, ModEntry)>)
    requires
        crate::str_map::keys_distinct(s),
    ensures
        enabled_names(s).no_duplicates(),
    decreases s.len(),
{
    if s.len() > 0 {
        let s0 = s.drop_last();
        assert(crate::str_map::keys_distinct(s0)) by {
            assert forall|i: int, j: int| 0 <= i < j < s0.len() implies #[trigger] s0[i].0
                != #[trigger] s0[j].0 by {
                assert(s0[i] == s[i] && s0[j] == s[j]);
            }
        }
        lemma_enabled_names_distinct(s0);
        lemma_enabled_names_keys(s0);
        let e0 = enabled_names(s0);
        let e = enabled_names(s);
        if s.last().1.enabled {
            assert forall|i: int| 0 <= i < e0.len() implies e0[i] != s.last().0 by {
                let j = choose|j: int| 0 <= j < s0.len() && #[trigger] s0[j].0 == #[trigger] e0[i];
                assert(s0[j] == s[j]);
                assert(s[j].0 != s[s.len() - 1].0);
            }
            assert forall|i: int, j: int|
                0 <= i < e.len() && 0 <= j < e.len() && i != j implies e[i] != e[j] by {
                if i < e0.len() && j < e0.len() {
                    assert(e[i] == e0[i] && e[j] == e0[j]);
                } else if i < e0.len() {
                    assert(e[i] == e0[i]);
                } else {
                    assert(e[j] == e0[j]);
                }
            }
        }
    }
}

/// The mods of `mods` that `mods_where` keeps are among `mods`, and
/// distinct when `mods` is.
proof fn lemma_mods_where_distinct(mods: Seq<Seq<char>>, names: Seq<Seq<char>>, found: bool)
    ensures
        forall|i: int|
            0 <= i < mods_where(mods, names, found).len() ==> mods.contains(
                #[trigger] mods_where(mods, names, found)[i],
            ),
        mods.no_duplicates() ==> mods_where(mods, names, found).no_duplicates(),
    decreases mods.len(),
{
    if mods.len() > 0 {
        let m0 = mods.drop_last();
        lemma_mods_where_distinct(m0, names, found);
        let w0 = mods_where(m0, names, found);
        let w = mods_where(mods, names, found);
        assert forall|i: int| 0 <= i < w.len() implies mods.contains(#[trigger] w[i]) by {
            if i < w0.len() {
                assert(w[i] == w0[i]);
                let j = choose|j: int| 0 <= j < m0.len() && m0[j] == w0[i];
                assert(mods[j] == m0[j]);
            } else {
                assert(w[i] == mods[mods.len() - 1]);
            }
        }
        if mods.no_duplicates() {
            assert(m0.no_duplicates()) by {
                assert forall|i: int, j: int|
                    0 <= i < m0.len() && 0 <= j < m0.len() && i != j implies m0[i] != m0[j] by {
                    assert(m0[i] == mods[i] && m0[j] == mods[j]);
                }
            }
            if has_mod_zip(names, mods.last()) == found {
                assert forall|i: int| 0 <= i < w0.len() implies w0[i] != mods.last() by {
                    let j = choose|j: int| 0 <= j < m0.len() && m0[j] == w0[i];
                    assert(mods[j] == m0[j]);
                    assert(mods[j] != mods[mods.len() - 1]);
                }
                assert forall|i: int, j: int|
                    0 <= i < w.len() && 0 <= j < w.len() && i != j implies w[i] != w[j] by {
                    if i < w0.len() && j < w0.len() {
                        assert(w[i] == w0[i] && w[j] == w0[j]);
                    } else if i < w0.len() {
                        assert(w[i] == w0[i]);
                    } else {
                        assert(w[j] == w0[j]);
                    }
                }
            }
        }
    }
}

/// What deploying a branch's mods involves.
#[derive(Debug, Clone)]
pub struct DeployPlan {
    /// The SMM profile linked to the branch.
    pub profile_name: String,
    /// The enabled mods of that profile, in the profile's order.
    pub mods: Vec<String>,
    /// The name of the lock file for the profile in the `Mods` directory.
    pub lock_file: String,
}

/// The name of the lock file SML reads for a profile.
pub open spec fn lock_file_name(profile: Seq<char>) -> Seq<char> {
    lower_text(profile) + "-lock.json"@
}

/// What deploying the mods of the profile linked to `branch` involves: an
/// error when no profile is linked, or when SMM has no profile of that name.
pub fn plan_deploy(branch_profiles: &BranchProfiles, smm: &SmmProfiles, branch: &Branch) -> (r:
    Result<DeployPlan, DeployError>)
    ensures
        match r {
            Ok(plan) => profile_for(text_view(branch_profiles.mappings@), *branch) == Some(
                plan.profile_name@,
            ) && smm.profiles@.dom().contains(plan.profile_name@) && texts(plan.mods@)
                == enabled_names(smm.profiles@[plan.profile_name@].mods.pairs())
                && texts(plan.mods@).no_duplicates()
                && plan.lock_file@ == lock_file_name(plan.profile_name@),
            Err(DeployError::NoProfileLinked(b)) => profile_for(
                text_view(branch_profiles.mappings@),
                *branch,
            ) is None && b@ == crate::steam::branch_name(*branch),
            Err(DeployError::ProfileNotFound(p)) => profile_for(
                text_view(branch_profiles.mappings@),
                *branch,
            ) == Some(p@) && !smm.profiles@.dom().contains(p@),
        },
{
    let profile_name = match profile_name_for_branch(branch_profiles, branch) {
        Some(name) => name,
        None => return Err(DeployError::NoProfileLinked(branch.to_string())),
    };
    let profile = match smm.profiles.get(profile_name.as_str()) {
        Some(p) => p,
        None => return Err(DeployError::ProfileNotFound(profile_name)),
    };
    let n = profile.mods.len();
    let mut mods: Vec<String> = Vec::new();
    let mut i: usize = 0;
    while i < n
        invariant
            n == profile.mods.pairs().len(),
            i <= n,
            texts(mods@) == enabled_names(profile.mods.pairs().take(i as int)),
        decreases n - i,
    {
        let (name, entry) = profile.mods.entry(i);
        assert(profile.mods.pairs().take(i + 1).drop_last() =~= profile.mods.pairs().take(i as int));
        let ghost before = mods@;
        if entry.enabled {
            mods.push(name.clone());
            assert(texts(mods@) =~= texts(before).push(name@));
        }
        i += 1;
    }
    assert(profile.mods.pairs().take(i as int) =~= profile.mods.pairs());
    proof {
        lemma_enabled_names_distinct(profile.mods.pairs());
    }
    let mut lock_file = to_lowercase(profile_name.as_str());
    push_text(&mut lock_file, "-lock.json");
    Ok(DeployPlan { profile_name, mods, lock_file })
}

/// The archive SMM caches for a mod is named after the mod, an underscore,
/// a version and `_Windows.zip`: every such name is an archive of the mod,
/// and no name that does not start with the mod's name and an underscore, or
/// does not end in `_Windows.zip`, is.
pub proof fn law_mod_zip_names(mod_name: Seq<char>, version: Seq<char>, name: Seq<char>)
    ensures
        is_mod_zip(mod_name + seq!['_'] + version + "_Windows.zip"@, mod_name),
        !starts_with_text(name, mod_name + seq!['_']) ==> !is_mod_zip(name, mod_name),
        !ends_with_text(name, "_Windows.zip"@) ==> !is_mod_zip(name, mod_name),
{
    reveal_strlit("_");
    reveal_strlit("_Windows.zip");
    assert("_"@ =~= seq!['_']);
    let n = mod_name + seq!['_'] + version + "_Windows.zip"@;
    assert(n.subrange(0, (mod_name + seq!['_']).len() as int) =~= mod_name + seq!['_']);
    assert(n.subrange(n.len() - "_Windows.zip"@.len(), n.len() as int) =~= "_Windows.zip"@);
}

/// The lock file SML reads for a profile is the profile's name, lowercased,
/// followed by `-lock.json`; for an ASCII name the lowercasing only turns
/// `A`..`Z` into `a`..`z`.
pub proof fn law_lock_file_name(profile: Seq<char>)
    ensures
        ends_with_text(lock_file_name(profile), "-lock.json"@),
        lock_file_name(profile).len() == lower_text(profile).len() + 10,
        is_ascii_chars(profile) ==> starts_with_text(lock_file_name(profile), ascii_lower(profile)),
{
    reveal_strlit("-lock.json");
    let l = lock_file_name(profile);
    let t = lower_text(profile);
    assert(l.subrange(l.len() - 10, l.len() as int) =~= "-lock.json"@);
    assert(l.subrange(0, t.len() as int) =~= t);
}

/// The mods of a profile that `sort_mods` sorts are split so that a mod
/// with an archive among the names goes to the first list and one without
/// goes to the second, and each list holds only mods of the profile.
pub proof fn law_mods_where(mods: Seq<Seq<char>>, names: Seq<Seq<char>>)
    ensures
        forall|i: int|
            0 <= i < mods_where(mods, names, true).len() ==> has_mod_zip(
                names,
                #[trigger] mods_where(mods, names, true)[i],
            ),
        forall|i: int|
            0 <= i < mods_where(mods, names, false).len() ==> !has_mod_zip(
                names,
                #[trigger] mods_where(mods, names, false)[i],
            ),
        mods_where(mods, names, true).len() + mods_where(mods, names, false).len() == mods.len(),
    decreases mods.len(),
{
    if mods.len() > 0 {
        let m0 = mods.drop_last();
        law_mods_where(m0, names);
        let t = mods_where(mods, names, true);
        let t0 = mods_where(m0, names, true);
        let f = mods_where(mods, names, false);
        let f0 = mods_where(m0, names, false);
        assert forall|i: int| 0 <= i < t.len() implies has_mod_zip(names, #[trigger] t[i]) by {
            if i < t0.len() {
                assert(t[i] == t0[i]);
            }
        }
        assert forall|i: int| 0 <= i < f.len() implies !has_mod_zip(names, #[trigger] f[i]) by {
            if i < f0.len() {
                assert(f[i] == f0[i]);
            }
        }
    }
}


/// `x` names an enabled entry of `s`.
pub open spec fn names_enabled(s: Seq<(Seq<char>, ModEntry)>, x: Seq<char>) -> bool {
    exists|j: int| 0 <= j < s.len() && (#[trigger] s[j]).1.enabled && s[j].0 == x
}

/// The mods deployed for a profile are its enabled ones: every name listed
/// is the name of an enabled entry, and every enabled entry's name is listed.
pub proof fn law_enabled_names(s: Seq<(Seq<char>, ModEntry)>)
    ensures
        forall|i: int|
            0 <= i < enabled_names(s).len() ==> names_enabled(s, #[trigger] enabled_names(s)[i]),
        forall|j: int| 0 <= j < s.len() && (#[trigger] s[j]).1.enabled ==> enabled_names(s).contains(s[j].0),
    decreases s.len(),
{
    if s.len() > 0 {
        let s0 = s.drop_last();
        law_enabled_names(s0);
        let e = enabled_names(s);
        let e0 = enabled_names(s0);
        assert forall|i: int| 0 <= i < e.len() implies names_enabled(s, #[trigger] e[i]) by {
            if i < e0.len() {
                assert(e[i] == e0[i]);
                assert(names_enabled(s0, e0[i]));
                let j = choose|j: int| 0 <= j < s0.len() && (#[trigger] s0[j]).1.enabled && s0[j].0 == e0[i];
                assert(s[j] == s0[j]);
            } else {
                assert(s[s.len() - 1] == s.last());
                assert(s.last().1.enabled);
                assert(e == e0.push(s.last().0));
                assert(s[s.len() - 1].0 == e[i]);
                assert(s[s.len() - 1].1.enabled);
            }
        }
        assert forall|j: int| 0 <= j < s.len() && (#[trigger] s[j]).1.enabled implies e.contains(
            s[j].0,
        ) by {
            if j < s0.len() {
                assert(s0[j] == s[j]);
                let k = choose|k: int| 0 <= k < e0.len() && e0[k] == s0[j].0;
                assert(e[k] == e0[k]);
            } else {
                assert(e[e.len() - 1] == s.last().0);
            }
        }
    }
}

} // verus!
