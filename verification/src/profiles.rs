//! SMM (Satisfactory Mod Manager) profiles and installations, and the
//! mapping from branches to the profiles they use.

use vstd::prelude::*;
use crate::steam::{branch_name, lemma_branch_names_differ, Branch};
use crate::str_map::{pair_keys, text_view, StrMap};
use crate::text::texts;
use vstd::string::StringExecFns;

verus! {

/// A mod entry in a SMM profile.
#[derive(Debug, Clone)]
pub struct ModEntry {
    pub version: String,
    pub enabled: bool,
}

/// A single SMM profile: its mods by name.
#[derive(Debug, Clone)]
pub struct SmmProfile {
    pub mods: StrMap<ModEntry>,
    pub name: String,
    pub required_targets: Vec<String>,
}

/// The SMM profiles file: the profiles by name.
#[derive(Debug)]
pub struct SmmProfiles {
    pub profiles: StrMap<SmmProfile>,
    pub selected_profile: String,
    pub version: i32,
}

/// A single SMM installation: a game directory and the profile it uses.
#[derive(Debug, Clone)]
pub struct InstallationConfig {
    pub path: String,
    pub profile: String,
    pub vanilla: bool,
}

/// The SMM installations file.
#[derive(Debug)]
pub struct SmmInstallations {
    pub installations: Vec<InstallationConfig>,
    pub selected_installation: String,
    pub version: i32,
}

/// The mapping from branch names to SMM profile names.
#[derive(Debug)]
pub struct BranchProfiles {
    pub mappings: StrMap<String>,
}

/// Errors of the profile logic.
#[derive(Debug)]
pub enum ProfileError {
    /// The profile is not one of SMM's; the names SMM has are given.
    ProfileNotFound { name: String, available: Vec<String> },
}

impl Default for SmmProfiles {
    fn default() -> (r: Self)
        ensures
            r.profiles@ == Map::<Seq<char>, SmmProfile>::empty(),
            r.selected_profile@ == Seq::<char>::empty(),
            r.version == 0,
    {
        SmmProfiles { profiles: StrMap::new(), selected_profile: String::new(), version: 0 }
    }
}

impl Default for SmmInstallations {
    fn default() -> (r: Self)
        ensures
            r.installations@ == Seq::<InstallationConfig>::empty(),
            r.selected_installation@ == Seq::<char>::empty(),
            r.version == 0,
    {
        SmmInstallations {
            installations: Vec::new(),
            selected_installation: String::new(),
            version: 0,
        }
    }
}

impl Default for BranchProfiles {
    fn default() -> (r: Self)
        ensures
            r.mappings@ == Map::<Seq<char>, String>::empty(),
    {
        BranchProfiles { mappings: StrMap::new() }
    }
}

/// The profile a branch is mapped to, if any.
pub open spec fn profile_for(m: Map<Seq<char>, Seq<char>>, b: Branch) -> Option<Seq<char>> {
    if m.dom().contains(branch_name(b)) {
        Some(m[branch_name(b)])
    } else {
        None
    }
}

/// The mapping with `b` mapped to `name`.
pub open spec fn linked(m: Map<Seq<char>, Seq<char>>, b: Branch, name: Seq<char>) -> Map<
    Seq<char>,
    Seq<char>,
> {
    m.insert(branch_name(b), name)
}

/// The name of the SMM profile linked to `branch`, if one is.
pub fn profile_name_for_branch(branch_profiles: &BranchProfiles, branch: &Branch) -> (r: Option<
    String,
>)
    ensures
        match r {
            Some(p) => profile_for(text_view(branch_profiles.mappings@), *branch) == Some(p@),
            None => profile_for(text_view(branch_profiles.mappings@), *branch) is None,
        },
{
    let key = branch.to_string();
    match branch_profiles.mappings.get(key.as_str()) {
        Some(name) => Some(name.clone()),
        None => None,
    }
}

/// Links the SMM profile `profile_name` to `branch`, provided SMM has a
/// profile of that name; otherwise reports the names it has and leaves the
/// mapping as it was.
pub fn link_profile(
    smm: &SmmProfiles,
    branch_profiles: &mut BranchProfiles,
    profile_name: &str,
    branch: &Branch,
) -> (r: Result<(), ProfileError>)
    ensures
        match r {
            Ok(()) => smm.profiles@.dom().contains(profile_name@) && text_view(
                final(branch_profiles).mappings@,
            ) == linked(text_view(old(branch_profiles).mappings@), *branch, profile_name@),
            Err(ProfileError::ProfileNotFound { name, available }) => !smm.profiles@.dom().contains(
                profile_name@,
            ) && name@ == profile_name@ && texts(available@) == pair_keys(smm.profiles.pairs())
                && final(branch_profiles).mappings@ == old(branch_profiles).mappings@,
        },
{
    if !smm.profiles.contains_key(profile_name) {
        return Err(
            ProfileError::ProfileNotFound {
                name: String::from_str(profile_name),
                available: smm.profiles.keys(),
            },
        );
    }
    let ghost before = branch_profiles.mappings@;
    let key = branch.to_string();
    let ghost kv = key@;
    branch_profiles.mappings.insert(key, String::from_str(profile_name));
    assert(text_view(branch_profiles.mappings@) =~= linked(text_view(before), *branch, profile_name@));
    Ok(())
}

/// What a request to link a profile to a branch came to.
#[derive(Debug, Clone, Copy, PartialEq, Eq)]
pub enum LinkOutcome {
    /// The profile is now linked to the branch.
    Linked,
    /// SMM has no profiles at all (it is not installed): nothing was linked,
    /// which is only worth a warning.
    NoSmmProfiles,
}

/// Handles a request to link `profile_name` to `branch`: when SMM has no
/// profiles at all, nothing changes and only a warning is due; otherwise
/// the profile is linked as `link_profile` does.
pub fn link_requested(
    smm: &SmmProfiles,
    branch_profiles: &mut BranchProfiles,
    profile_name: &str,
    branch: &Branch,
) -> (r: Result<LinkOutcome, ProfileError>)
    ensures
        match r {
            Ok(LinkOutcome::NoSmmProfiles) => smm.profiles@ == Map::<Seq<char>, SmmProfile>::empty()
                && final(branch_profiles).mappings@ == old(branch_profiles).mappings@,
            Ok(LinkOutcome::Linked) => smm.profiles@.dom().contains(profile_name@) && text_view(
                final(branch_profiles).mappings@,
            ) == linked(text_view(old(branch_profiles).mappings@), *branch, profile_name@),
            Err(ProfileError::ProfileNotFound { name, available }) => smm.profiles@ != Map::<
                Seq<char>,
                SmmProfile,
            >::empty() && !smm.profiles@.dom().contains(profile_name@) && name@ == profile_name@
                && texts(available@) == pair_keys(smm.profiles.pairs())
                && final(branch_profiles).mappings@ == old(branch_profiles).mappings@,
        },
{
    if smm.profiles.is_empty() {
        return Ok(LinkOutcome::NoSmmProfiles);
    }
    match link_profile(smm, branch_profiles, profile_name, branch) {
        Ok(()) => Ok(LinkOutcome::Linked),
        Err(e) => Err(e),
    }
}

/// An installation entry as plain values.
pub struct InstallationView {
    pub path: Seq<char>,
    pub profile: Seq<char>,
    pub vanilla: bool,
}

impl View for InstallationConfig {
    type V = InstallationView;

    open spec fn view(&self) -> InstallationView {
        InstallationView { path: self.path@, profile: self.profile@, vanilla: self.vanilla }
    }
}

/// The installation entries as plain values.
pub open spec fn installs_view(s: Seq<InstallationConfig>) -> Seq<InstallationView> {
    s.map_values(|c: InstallationConfig| c@)
}

/// The position of the first installation whose path is `path`.
pub open spec fn index_of_path(s: Seq<InstallationView>, path: Seq<char>) -> Option<int>
    decreases s.len(),
{
    if s.len() == 0 {
        None
    } else if s[0].path == path {
        Some(0)
    } else {
        match index_of_path(s.drop_first(), path) {
            Some(i) => Some(i + 1),
            None => None,
        }
    }
}

/// The installations with `path` set to use `profile`: the first entry for
/// that path is updated, or a new non-vanilla entry is added at the end.
pub open spec fn activated(s: Seq<InstallationView>, path: Seq<char>, profile: Seq<char>) -> Seq<
    InstallationView,
> {
    match index_of_path(s, path) {
        Some(i) => s.update(i, InstallationView { path: s[i].path, profile, vanilla: s[i].vanilla }),
        None => s.push(InstallationView { path, profile, vanilla: false }),
    }
}

/// `index_of_path` finds the first entry with the path.
pub proof fn lemma_index_of_path(s: Seq<InstallationView>, path: Seq<char>)
    ensures
        match index_of_path(s, path) {
            Some(i) => 0 <= i < s.len() && s[i].path == path && forall|j: int|
                0 <= j < i ==> #[trigger] s[j].path != path,
            None => forall|j: int| 0 <= j < s.len() ==> #[trigger] s[j].path != path,
        },
    decreases s.len(),
{
    if s.len() > 0 && s[0].path != path {
        lemma_index_of_path(s.drop_first(), path);
        match index_of_path(s.drop_first(), path) {
            Some(i) => {
                assert forall|j: int| 0 <= j < i + 1 implies #[trigger] s[j].path != path by {
                    if j > 0 {
                        assert(s[j] == s.drop_first()[j - 1]);
                    }
                }
            },
            None => {
                assert forall|j: int| 0 <= j < s.len() implies #[trigger] s[j].path != path by {
                    if j > 0 {
                        assert(s[j] == s.drop_first()[j - 1]);
                    }
                }
            },
        }
    }
}

/// Points the SMM installation at `install_path` to the profile linked to
/// `branch`, and gives that profile's name; gives `None`, changing nothing,
/// when no profile is linked.
pub fn activate_profile_for_branch(
    branch_profiles: &BranchProfiles,
    installations: &mut SmmInstallations,
    branch: &Branch,
    install_path: &str,
) -> (r: Option<String>)
    ensures
        match r {
            Some(p) => profile_for(text_view(branch_profiles.mappings@), *branch) == Some(p@)
                && installs_view(final(installations).installations@) == activated(
                installs_view(old(installations).installations@),
                install_path@,
                p@,
            ),
            None => profile_for(text_view(branch_profiles.mappings@), *branch) is None
                && final(installations).installations@ == old(installations).installations@,
        },
        final(installations).selected_installation == old(installations).selected_installation,
        final(installations).version == old(installations).version,
{
    let profile_name = match profile_name_for_branch(branch_profiles, branch) {
        Some(name) => name,
        None => return None,
    };
    let ghost before = installs_view(installations.installations@);
    proof {
        lemma_index_of_path(before, install_path@);
    }
    let key = String::from_str(install_path);
    let mut i: usize = 0;
    while i < installations.installations.len()
        invariant
            i <= installations.installations@.len(),
            before == installs_view(installations.installations@),
            installations.installations@ == old(installations).installations@,
            installations.selected_installation == old(installations).selected_installation,
            installations.version == old(installations).version,
            key@ == install_path@,
            profile_for(text_view(branch_profiles.mappings@), *branch) == Some(profile_name@),
            forall|j: int| 0 <= j < i ==> #[trigger] before[j].path != install_path@,
        decreases installations.installations@.len() - i,
    {
        if installations.installations[i].path == key {
            assert(before[i as int].path == install_path@);
            proof {
                lemma_index_of_path(before, install_path@);
            }
            assert(index_of_path(before, install_path@) == Some(i as int));
            let entry = InstallationConfig {
                path: installations.installations[i].path.clone(),
                profile: profile_name.clone(),
                vanilla: installations.installations[i].vanilla,
            };
            installations.installations.set(i, entry);
            assert(installs_view(installations.installations@) =~= activated(
                before,
                install_path@,
                profile_name@,
            ));
            return Some(profile_name);
        }
        i += 1;
    }
    proof {
        lemma_index_of_path(before, install_path@);
    }
    assert(index_of_path(before, install_path@) is None);
    installations.installations.push(
        InstallationConfig { path: key, profile: profile_name.clone(), vanilla: false },
    );
    assert(installs_view(installations.installations@) =~= activated(
        before,
        install_path@,
        profile_name@,
    ));
    Some(profile_name)
}

/// After linking a profile to a branch, the branch's profile is that one.
pub proof fn law_link_then_lookup(m: Map<Seq<char>, Seq<char>>, b: Branch, name: Seq<char>)
    ensures
        profile_for(linked(m, b, name), b) == Some(name),
{
}

/// Linking a profile to one branch leaves the other branch's profile as it was.
pub proof fn law_link_keeps_other_branch(
    m: Map<Seq<char>, Seq<char>>,
    b: Branch,
    other: Branch,
    name: Seq<char>,
)
    requires
        b != other,
    ensures
        profile_for(linked(m, b, name), other) == profile_for(m, other),
{
    lemma_branch_names_differ();
}

/// After activation, the first installation entry for the path uses the profile.
pub proof fn law_activate_sets_profile(s: Seq<InstallationView>, path: Seq<char>, profile: Seq<char>)
    ensures
        index_of_path(activated(s, path, profile), path) matches Some(i) && activated(
            s,
            path,
            profile,
        )[i].profile == profile,
{
    let t = activated(s, path, profile);
    lemma_index_of_path(s, path);
    lemma_index_of_path(t, path);
    match index_of_path(s, path) {
        Some(i) => {
            assert(t[i].path == path);
            assert forall|j: int| 0 <= j < i implies #[trigger] t[j].path != path by {
                assert(t[j] == s[j]);
            }
        },
        None => {
            assert(t[s.len() as int].path == path);
            assert forall|j: int| 0 <= j < s.len() implies #[trigger] t[j].path != path by {
                assert(t[j] == s[j]);
            }
        },
    }
}

/// Activation touches only the installation entry for the path: every other
/// entry stays as it was, the entry for the path keeps its path and vanilla
/// flag, and an installation not listed yet is added as non-vanilla.
pub proof fn law_activate_keeps_others(s: Seq<InstallationView>, path: Seq<char>, profile: Seq<char>)
    ensures
        forall|j: int|
            0 <= j < s.len() && #[trigger] s[j].path != path ==> activated(s, path, profile)[j] == s[j],
        forall|j: int|
            0 <= j < s.len() && #[trigger] s[j].path == path ==> activated(s, path, profile)[j].path
                == path && activated(s, path, profile)[j].vanilla == s[j].vanilla,
        (forall|j: int| 0 <= j < s.len() ==> #[trigger] s[j].path != path) ==> activated(
            s,
            path,
            profile,
        ) == s.push(InstallationView { path, profile, vanilla: false }),
        (exists|j: int| 0 <= j < s.len() && #[trigger] s[j].path == path) ==> activated(
            s,
            path,
            profile,
        ).len() == s.len(),
{
    lemma_index_of_path(s, path);
    match index_of_path(s, path) {
        Some(i) => {},
        None => {},
    }
}

/// Activating the same profile twice for a path is the same as once.
pub proof fn law_activate_idempotent(s: Seq<InstallationView>, path: Seq<char>, profile: Seq<char>)
    ensures
        activated(activated(s, path, profile), path, profile) == activated(s, path, profile),
{
    let t = activated(s, path, profile);
    law_activate_sets_profile(s, path, profile);
    lemma_index_of_path(t, path);
    let i = index_of_path(t, path)->Some_0;
    assert(t.update(i, InstallationView { path: t[i].path, profile, vanilla: t[i].vanilla }) =~= t);
}

/// The number of mods among `s` that are enabled.
pub open spec fn enabled_mods(s: Seq<(Seq<char>, ModEntry)>) -> nat
    decreases s.len(),
{
    if s.len() == 0 {
        0
    } else {
        enabled_mods(s.drop_last()) + if s.last().1.enabled {
            1nat
        } else {
            0nat
        }
    }
}

impl SmmProfile {
    /// How many of the profile's mods are enabled.
    pub fn enabled_count(&self) -> (n: usize)
        ensures
            n == enabled_mods(self.mods.pairs()),
    {
        let total = self.mods.len();
        let mut n: usize = 0;
        let mut i: usize = 0;
        while i < total
            invariant
                total == self.mods.pairs().len(),
                i <= total,
                n == enabled_mods(self.mods.pairs().take(i as int)),
                n <= i,
            decreases total - i,
        {
            let (_, entry) = self.mods.entry(i);
            assert(self.mods.pairs().take(i + 1).drop_last() =~= self.mods.pairs().take(i as int));
            if entry.enabled {
                n += 1;
            }
            i += 1;
        }
        assert(self.mods.pairs().take(i as int) =~= self.mods.pairs());
        n
    }
}

} // verus!
