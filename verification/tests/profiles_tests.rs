use ficswitch::profiles::{
    activate_profile_for_branch, link_profile, link_requested, profile_name_for_branch,
    BranchProfiles, InstallationConfig, LinkOutcome, ModEntry, ProfileError, SmmInstallations,
    SmmProfile, SmmProfiles,
};
use ficswitch::steam::Branch;
use ficswitch::str_map::StrMap;

fn profile(name: &str, mods: &[(&str, bool)]) -> SmmProfile {
    let mut m = StrMap::new();
    for (n, e) in mods {
        m.insert(n.to_string(), ModEntry { version: "1.0.0".to_string(), enabled: *e });
    }
    SmmProfile { mods: m, name: name.to_string(), required_targets: Vec::new() }
}

fn smm_with(names: &[&str]) -> SmmProfiles {
    let mut profiles = StrMap::new();
    for n in names {
        profiles.insert(n.to_string(), profile(n, &[]));
    }
    SmmProfiles { profiles, selected_profile: String::new(), version: 0 }
}

#[test]
fn test_profiles_test_profile_link_no_smm() {
    // link_profile("NonExistentProfile") must always return Err.
    let smm = SmmProfiles::default();
    let mut bp = BranchProfiles::default();
    let result = link_profile(&smm, &mut bp, "__ficswitch_test_nonexistent_profile__", &Branch::Stable);
    assert!(result.is_err(), "expected Err for a profile that cannot exist");
    let smm = smm_with(&["A", "B"]);
    let result = link_profile(&smm, &mut bp, "__ficswitch_test_nonexistent_profile__", &Branch::Stable);
    assert!(result.is_err(), "expected Err for a profile that cannot exist");
}

#[test]
fn test_backup_test_profile_link_no_smm() {
    // When SMM has no profiles, the link request is not an error.
    let smm = SmmProfiles::default();
    let mut bp = BranchProfiles::default();
    let result = link_requested(&smm, &mut bp, "nonexistent-profile", &Branch::Stable);
    assert!(result.is_ok(), "Expected Ok when SMM has no profiles, got Err: {:?}", result.err());
    assert_eq!(result.unwrap(), LinkOutcome::NoSmmProfiles);
    assert!(bp.mappings.is_empty());
}

#[test]
fn link_then_lookup() {
    let smm = smm_with(&["MyMod", "Vanilla"]);
    let mut bp = BranchProfiles::default();
    link_profile(&smm, &mut bp, "MyMod", &Branch::Stable).unwrap();
    assert_eq!(profile_name_for_branch(&bp, &Branch::Stable), Some("MyMod".to_string()));
    assert_eq!(profile_name_for_branch(&bp, &Branch::Experimental), None);
    link_profile(&smm, &mut bp, "Vanilla", &Branch::Experimental).unwrap();
    link_profile(&smm, &mut bp, "Vanilla", &Branch::Stable).unwrap();
    assert_eq!(profile_name_for_branch(&bp, &Branch::Stable), Some("Vanilla".to_string()));
    assert_eq!(bp.mappings.len(), 2);
    assert_eq!(bp.mappings.get("stable"), Some(&"Vanilla".to_string()));
}

#[test]
fn link_unknown_profile_lists_available() {
    let smm = smm_with(&["A", "B"]);
    let mut bp = BranchProfiles::default();
    match link_profile(&smm, &mut bp, "C", &Branch::Stable) {
        Err(ProfileError::ProfileNotFound { name, available }) => {
            assert_eq!(name, "C");
            assert_eq!(available, vec!["A".to_string(), "B".to_string()]);
        }
        other => panic!("unexpected: {:?}", other),
    }
    assert!(bp.mappings.is_empty());
    assert_eq!(link_requested(&smm, &mut bp, "A", &Branch::Stable).unwrap(), LinkOutcome::Linked);
}

#[test]
fn activate_updates_or_adds_installation() {
    let smm = smm_with(&["MyMod"]);
    let mut bp = BranchProfiles::default();
    let mut inst = SmmInstallations::default();
    assert_eq!(activate_profile_for_branch(&bp, &mut inst, &Branch::Stable, "/g"), None);
    assert!(inst.installations.is_empty());
    link_profile(&smm, &mut bp, "MyMod", &Branch::Stable).unwrap();
    inst.installations.push(InstallationConfig { path: "/other".into(), profile: "X".into(), vanilla: true });
    assert_eq!(
        activate_profile_for_branch(&bp, &mut inst, &Branch::Stable, "/g"),
        Some("MyMod".to_string())
    );
    assert_eq!(inst.installations.len(), 2);
    assert_eq!(inst.installations[1].path, "/g");
    assert_eq!(inst.installations[1].profile, "MyMod");
    assert!(!inst.installations[1].vanilla);
    inst.installations[1].vanilla = true;
    inst.installations[1].profile = "Old".into();
    activate_profile_for_branch(&bp, &mut inst, &Branch::Stable, "/g");
    assert_eq!(inst.installations.len(), 2);
    assert_eq!(inst.installations[1].profile, "MyMod");
    assert!(inst.installations[1].vanilla);
    assert_eq!(inst.installations[0].profile, "X");
}

#[test]
fn enabled_count_counts_enabled_mods() {
    let p = profile("P", &[("A", true), ("B", false), ("C", true)]);
    assert_eq!(p.enabled_count(), 2);
    assert_eq!(p.mods.len(), 3);
}

#[test]
fn str_map_insert_replaces_in_place() {
    let mut m: StrMap<u32> = StrMap::new();
    assert!(m.is_empty());
    m.insert("a".into(), 1);
    m.insert("b".into(), 2);
    m.insert("a".into(), 3);
    assert_eq!(m.len(), 2);
    assert_eq!(m.get("a"), Some(&3));
    assert_eq!(m.keys(), vec!["a".to_string(), "b".to_string()]);
    assert_eq!(m.find("b"), Some(1));
    assert!(!m.contains_key("c"));
    let c = m.clone();
    assert_eq!(c.get("b"), Some(&2));
}
