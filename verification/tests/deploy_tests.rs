use ficswitch::mod_deploy::{find_mod_zip, is_mod_zip_name, plan_deploy, DeployError};
use ficswitch::profiles::{link_profile, BranchProfiles, ModEntry, SmmProfile, SmmProfiles};
use ficswitch::steam::Branch;
use ficswitch::str_map::StrMap;

#[test]
fn mod_zip_choice() {
    let names: Vec<String> = [
        "SML_3.7.0_Windows.zip",
        "SML_3.8.0_Windows.zip",
        "SMLX_1.0_Windows.zip",
        "SML_3.9.0_Linux.zip",
        "RefinedPower_1.0_Windows.zip",
    ]
    .iter()
    .map(|s| s.to_string())
    .collect();
    assert_eq!(find_mod_zip(&names, "SML"), Some("SML_3.8.0_Windows.zip".to_string()));
    assert_eq!(find_mod_zip(&names, "RefinedPower"), Some("RefinedPower_1.0_Windows.zip".to_string()));
    assert_eq!(find_mod_zip(&names, "Missing"), None);
    assert!(is_mod_zip_name("A_Windows.zip", "A"));
    assert!(!is_mod_zip_name("A_Windows.zip", "B"));
}

#[test]
fn deploy_plan() {
    let mut mods = StrMap::new();
    mods.insert("A".to_string(), ModEntry { version: "1".into(), enabled: true });
    mods.insert("B".to_string(), ModEntry { version: "1".into(), enabled: false });
    mods.insert("C".to_string(), ModEntry { version: "2".into(), enabled: true });
    let mut profiles = StrMap::new();
    profiles.insert("My Mods".to_string(), SmmProfile { mods, name: "My Mods".into(), required_targets: vec![] });
    let smm = SmmProfiles { profiles, selected_profile: String::new(), version: 1 };
    let mut bp = BranchProfiles::default();
    match plan_deploy(&bp, &smm, &Branch::Experimental) {
        Err(DeployError::NoProfileLinked(b)) => assert_eq!(b, "experimental"),
        other => panic!("unexpected {:?}", other),
    }
    link_profile(&smm, &mut bp, "My Mods", &Branch::Experimental).unwrap();
    let plan = plan_deploy(&bp, &smm, &Branch::Experimental).unwrap();
    assert_eq!(plan.profile_name, "My Mods");
    assert_eq!(plan.mods, vec!["A".to_string(), "C".to_string()]);
    assert_eq!(plan.lock_file, "my mods-lock.json");
    bp.mappings.insert("stable".into(), "Gone".into());
    match plan_deploy(&bp, &smm, &Branch::Stable) {
        Err(DeployError::ProfileNotFound(p)) => assert_eq!(p, "Gone"),
        other => panic!("unexpected {:?}", other),
    }
}

#[test]
fn sort_mods_splits_found_and_missing() {
    let mods = vec!["A".to_string(), "B".to_string(), "C".to_string()];
    let names = vec![
        "A_1.0.0_Windows.zip".to_string(),
        "C_1.0.0_Windows.zip".to_string(),
        "A_1.2.0_Windows.zip".to_string(),
        "B_readme.txt".to_string(),
    ];
    let (found, missing) = ficswitch::mod_deploy::sort_mods(&mods, &names);
    assert_eq!(
        found,
        vec![
            ("A".to_string(), "A_1.2.0_Windows.zip".to_string()),
            ("C".to_string(), "C_1.0.0_Windows.zip".to_string()),
        ]
    );
    assert_eq!(missing, vec!["B".to_string()]);
}

#[test]
fn deploy_plan_mods_are_distinct() {
    let (found, missing) = ficswitch::mod_deploy::sort_mods(
        &vec!["A".to_string(), "B".to_string()],
        &vec!["A_1_Windows.zip".to_string()],
    );
    assert_eq!(found.len() + missing.len(), 2);
    assert_ne!(found[0].0, missing[0]);
}
