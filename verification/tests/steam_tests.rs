use ficswitch::steam::{
    detect_branch, get_download_progress, get_install_dir, is_download_pending, parse_u64,
    parse_vdf_flat, set_betakey_in_acf, switch_branch, try_switch_branch, vdf_line, Branch, SteamError, VdfLine,
};

const SAMPLE_ACF: &str = r#""AppState"
{
	"appid"		"526870"
	"Universe"		"1"
	"name"		"Satisfactory"
	"installdir"		"Satisfactory"
	"UserConfig"
	{
		"betakey"		"experimental"
	}
	"MountedConfig"
	{
		"betakey"		"experimental"
	}
}"#;

#[test]
fn test_parse_vdf_flat() {
    let map = parse_vdf_flat(SAMPLE_ACF);
    assert_eq!(map.get("appstate.appid").unwrap(), "526870");
    assert_eq!(map.get("appstate.name").unwrap(), "Satisfactory");
    assert_eq!(
        map.get("appstate.userconfig.betakey").unwrap(),
        "experimental"
    );
}

#[test]
fn test_branch_from_str() {
    assert_eq!(Branch::from_str("stable").unwrap(), Branch::Stable);
    assert_eq!(Branch::from_str("experimental").unwrap(), Branch::Experimental);
    assert_eq!(Branch::from_str("").unwrap(), Branch::Stable);
    assert_eq!(Branch::from_str("public").unwrap(), Branch::Stable);
    assert!(Branch::from_str("unknown").is_err());
}

#[test]
fn test_branch_betakey() {
    assert_eq!(Branch::Stable.betakey(), "");
    assert_eq!(Branch::Experimental.betakey(), "experimental");
}

#[test]
fn test_set_betakey_in_acf() {
    let result = set_betakey_in_acf(SAMPLE_ACF, "");
    assert!(result.contains("\"betakey\"\t\t\"\""));
    assert!(!result.contains("\"betakey\"\t\t\"experimental\""));
}

#[test]
fn steam_test_acf_trailing_newline_preserved() {
    // Regression: if the input ACF ends with '\n', the output must too.
    let acf_with_newline = format!("{}\n", SAMPLE_ACF);
    let result = set_betakey_in_acf(&acf_with_newline, "");
    assert!(
        result.ends_with('\n'),
        "Expected trailing newline to be preserved, but result ends with: {:?}",
        result.chars().last()
    );
}

#[test]
fn steam_test_acf_no_trailing_newline_not_added() {
    // Regression: if the input ACF has no trailing '\n', the output must not add one.
    assert!(
        !SAMPLE_ACF.ends_with('\n'),
        "SAMPLE_ACF should not end with newline"
    );
    let result = set_betakey_in_acf(SAMPLE_ACF, "");
    assert!(
        !result.ends_with('\n'),
        "Expected no trailing newline to be added, but result ends with '\\n'. \
         Last 10 chars: {:?}",
        &result[result.len().saturating_sub(10)..]
    );
}

const SAMPLE_ACF_WITH_NEWLINE: &str = "\"AppState\"\n{\n\t\"appid\"\t\t\"526870\"\n\t\"UserConfig\"\n\t{\n\t\t\"betakey\"\t\t\"experimental\"\n\t}\n\t\"MountedConfig\"\n\t{\n\t\t\"betakey\"\t\t\"experimental\"\n\t}\n}\n";
const SAMPLE_ACF_WITHOUT_NEWLINE: &str = "\"AppState\"\n{\n\t\"appid\"\t\t\"526870\"\n\t\"UserConfig\"\n\t{\n\t\t\"betakey\"\t\t\"experimental\"\n\t}\n\t\"MountedConfig\"\n\t{\n\t\t\"betakey\"\t\t\"experimental\"\n\t}\n}";

#[test]
fn test_backup_test_acf_trailing_newline_preserved() {
    let result = switch_branch(SAMPLE_ACF_WITH_NEWLINE, &Branch::Stable);
    assert!(
        result.ends_with('\n'),
        "Expected trailing newline to be preserved; last 10 chars: {:?}",
        &result[result.len().saturating_sub(10)..]
    );
}

#[test]
fn test_backup_test_acf_no_trailing_newline_not_added() {
    let result = switch_branch(SAMPLE_ACF_WITHOUT_NEWLINE, &Branch::Stable);
    assert!(
        !result.ends_with('\n'),
        "Expected no trailing newline; last 10 chars: {:?}",
        &result[result.len().saturating_sub(10)..]
    );
}

#[test]
fn set_betakey_rewrites_exact_text() {
    let content = "\"AppState\"\n{\n\t\"UserConfig\"\n\t{\n\t\t\"BetaKey\"\t\t\"\"\n\t}\n}\n";
    let result = set_betakey_in_acf(content, "experimental");
    assert_eq!(
        result,
        "\"AppState\"\n{\n\t\"UserConfig\"\n\t{\n\t\t\"betakey\"\t\t\"experimental\"\n\t}\n}\n"
    );
}

#[test]
fn set_betakey_inserts_missing_key() {
    let content = "\"AppState\"\n{\n\t\"UserConfig\"\n\t{\n\t\t\"language\"\t\t\"english\"\n\t}\n\t\"MountedConfig\"\n\t{\n\t}\n}";
    let result = set_betakey_in_acf(content, "experimental");
    assert_eq!(
        result,
        "\"AppState\"\n{\n\t\"UserConfig\"\n\t{\n\t\t\"language\"\t\t\"english\"\n\t\t\"betakey\"\t\t\"experimental\"\n\t}\n\t\"MountedConfig\"\n\t{\n\t\t\"betakey\"\t\t\"experimental\"\n\t}\n}"
    );
}

#[test]
fn set_betakey_keeps_crlf_free_output_and_empty_input() {
    assert_eq!(set_betakey_in_acf("", "experimental"), "");
    assert_eq!(set_betakey_in_acf("a\r\nb", "x"), "a\nb");
}

#[test]
fn switch_then_detect_gives_target() {
    let to_exp = switch_branch(SAMPLE_ACF_WITH_NEWLINE, &Branch::Experimental);
    assert_eq!(detect_branch(&to_exp).unwrap(), Branch::Experimental);
    let to_stable = switch_branch(SAMPLE_ACF_WITH_NEWLINE, &Branch::Stable);
    assert_eq!(detect_branch(&to_stable).unwrap(), Branch::Stable);
}

#[test]
fn try_switch_branch_succeeds_on_manifest() {
    let r = try_switch_branch(SAMPLE_ACF, &Branch::Stable).unwrap();
    assert_eq!(r, set_betakey_in_acf(SAMPLE_ACF, ""));
}

#[test]
fn detect_branch_reads_user_then_mounted() {
    assert_eq!(detect_branch(SAMPLE_ACF).unwrap(), Branch::Experimental);
    let mounted_only = "\"AppState\"\n{\n\t\"MountedConfig\"\n\t{\n\t\t\"betakey\"\t\t\"EXPERIMENTAL\"\n\t}\n}";
    assert_eq!(detect_branch(mounted_only).unwrap(), Branch::Experimental);
    assert_eq!(detect_branch("").unwrap(), Branch::Stable);
    let unknown = "\"AppState\"\n{\n\t\"UserConfig\"\n\t{\n\t\t\"betakey\"\t\t\"Beta\"\n\t}\n}";
    match detect_branch(unknown) {
        Err(SteamError::UnknownBranch(name)) => assert_eq!(name, "beta"),
        other => panic!("unexpected: {:?}", other),
    }
}

#[test]
fn branch_names_round_trip() {
    for b in [Branch::Stable, Branch::Experimental] {
        assert_eq!(Branch::from_str(b.name()).unwrap(), b);
        assert_eq!(Branch::from_str(b.betakey()).unwrap(), b);
        assert_eq!(Branch::from_str(&b.to_string().to_uppercase()).unwrap(), b);
    }
}

#[test]
fn parse_vdf_flat_nested_sections() {
    let text = "\"LibraryFolders\"\n{\n\t\"0\"\n\t{\n\t\t\"path\"\t\t\"/home/u/Steam\"\n\t}\n\t\"1\"\n\t{\n\t\t\"Path\"\t\t\"/mnt/games\"\n\t}\n}\n";
    let map = parse_vdf_flat(text);
    assert_eq!(map.get("libraryfolders.0.path").unwrap(), "/home/u/Steam");
    assert_eq!(map.get("libraryfolders.1.path").unwrap(), "/mnt/games");
    let paths = ficswitch::steam::library_paths(&map);
    assert_eq!(paths, vec!["/home/u/Steam".to_string(), "/mnt/games".to_string()]);
}

#[test]
fn download_state_from_manifest() {
    let text = "\"AppState\"\n{\n\t\"buildid\"\t\t\"100\"\n\t\"TargetBuildID\"\t\t\"100\"\n\t\"BytesToDownload\"\t\t\"+2000\"\n\t\"BytesDownloaded\"\t\t\"500\"\n}\n";
    assert!(is_download_pending(text));
    let p = get_download_progress(text);
    assert_eq!(p.bytes_total, 2000);
    assert_eq!(p.bytes_downloaded, 500);
    let done = "\"AppState\"\n{\n\t\"buildid\"\t\t\"100\"\n\t\"TargetBuildID\"\t\t\"0\"\n\t\"BytesToDownload\"\t\t\"abc\"\n}\n";
    assert!(!is_download_pending(done));
    let queued = "\"AppState\"\n{\n\t\"buildid\"\t\t\"100\"\n\t\"TargetBuildID\"\t\t\"101\"\n}\n";
    assert!(is_download_pending(queued));
}

#[test]
fn parse_u64_matches_std() {
    for s in ["", "+", "0", "+7", "-1", "18446744073709551615", "18446744073709551616", "12a", " 1"] {
        assert_eq!(parse_u64(s), s.parse::<u64>().ok(), "input {:?}", s);
    }
}

#[test]
fn install_dir_from_manifest() {
    assert_eq!(get_install_dir(SAMPLE_ACF).unwrap(), "Satisfactory");
    assert!(matches!(get_install_dir("\"AppState\"\n{\n}\n"), Err(SteamError::InstallDirNotFound)));
}

#[test]
fn set_betakey_leaves_manifest_without_sections() {
    let text = "\"AppState\"\n{\n\t\"appid\"\t\t\"526870\"\n\t\"betakey\"\t\t\"x\"\n}";
    assert_eq!(set_betakey_in_acf(text, "experimental"), text);
    let with_nl = format!("{}\n", text);
    assert_eq!(set_betakey_in_acf(&with_nl, ""), with_nl);
    assert_eq!(set_betakey_in_acf("a\r\nb\n", "k"), "a\nb\n");
}

#[test]
fn set_betakey_keeps_only_leading_indent() {
    let content = "\"UserConfig\"\n{\n\t\"betakey\"\t\t\"x\" \n}";
    assert_eq!(
        set_betakey_in_acf(content, "k"),
        "\"UserConfig\"\n{\n\t\"betakey\"\t\t\"k\"\n}"
    );
    let content = "\"UserConfig\"\n{\n\t\t\"betakey\"\t\t\"experimental\" \n}";
    assert_eq!(
        set_betakey_in_acf(content, ""),
        "\"UserConfig\"\n{\n\t\t\"betakey\"\t\t\"\"\n}"
    );
}

#[test]
fn parse_vdf_flat_reads_empty_value_as_entry() {
    let content = "\"AppState\"\n{\n\t\"UserConfig\"\n\t{\n\t\t\"betakey\"\t\t\"\"\n\t}\n\t\"installdir\"\t\t\"Satisfactory\"\n}";
    let map = parse_vdf_flat(content);
    assert_eq!(map.len(), 2);
    assert_eq!(map.get("appstate.userconfig.betakey").unwrap(), "");
    assert_eq!(map.get("appstate.installdir").unwrap(), "Satisfactory");
}

#[test]
fn switch_to_stable_then_detect() {
    let switched = switch_branch(SAMPLE_ACF, &Branch::Stable);
    assert!(matches!(detect_branch(&switched), Ok(Branch::Stable)));
    let map = parse_vdf_flat(&switched);
    assert_eq!(map.get("appstate.userconfig.betakey").unwrap(), "");
    assert_eq!(map.get("appstate.mountedconfig.betakey").unwrap(), "");
    assert_eq!(map.get("appstate.installdir").unwrap(), "Satisfactory");
}

#[test]
fn written_betakey_line_reads_back() {
    let chars: Vec<char> = " \t\"betakey\"\t\t\"experimental\"".chars().collect();
    match vdf_line(&chars, 0, chars.len()) {
        VdfLine::Entry(k, v) => {
            assert_eq!(k, "betakey");
            assert_eq!(v, "experimental");
        }
        _ => panic!("expected an entry"),
    }
}

#[test]
fn parse_vdf_flat_values_hold_no_tabs() {
    let content = "\"AppState\"\n{\n\t\"a\"\t\"b\tc\"\n\t\"d\"\t\t\"e f\"\n}\n";
    let map = parse_vdf_flat(content);
    assert_eq!(map.len(), 1);
    assert_eq!(map.get("appstate.d").unwrap(), "e f");
    assert!(map.get("appstate.a").is_none());
}

#[test]
fn betakey_rewrite_keeps_other_keys() {
    let content = "\"AppState\"\n{\n\t\"appid\"\t\t\"526870\"\n\t\"UserConfig\"\n\t{\n\t\t\"language\"\t\t\"english\"\n\t}\n\t\"installdir\"\t\t\"Satisfactory\"\n}\n";
    let before = parse_vdf_flat(content);
    let switched = switch_branch(content, &Branch::Experimental);
    let after = parse_vdf_flat(&switched);
    assert_eq!(before.len(), 3);
    assert_eq!(after.len(), 4);
    for k in ["appstate.appid", "appstate.userconfig.language", "appstate.installdir"] {
        assert_eq!(after.get(k), before.get(k));
    }
    assert_eq!(after.get("appstate.userconfig.betakey").unwrap(), "experimental");
    assert!(matches!(detect_branch(&switched), Ok(Branch::Experimental)));
}

#[test]
fn switch_reads_back_with_mounted_config_first() {
    let content = "\"AppState\"\n{\n\t\"MountedConfig\"\n\t{\n\t\t\"x\"\t\t\"1\"\n\t}\n\t\"UserConfig\"\n\t{\n\t\t\"betakey\"\t\t\"\"\n\t}\n}\n";
    let switched = switch_branch(content, &Branch::Experimental);
    assert!(matches!(detect_branch(&switched), Ok(Branch::Experimental)));
    let map = parse_vdf_flat(&switched);
    assert_eq!(map.get("appstate.userconfig.betakey").unwrap(), "experimental");
    assert_eq!(map.get("appstate.mountedconfig.betakey").unwrap(), "experimental");
    assert_eq!(map.get("appstate.mountedconfig.x").unwrap(), "1");
}

#[test]
fn two_section_rewrite_keeps_other_keys() {
    let content = "\"AppState\"\n{\n\t\"appid\"\t\t\"526870\"\n\t\"UserConfig\"\n\t{\n\t\t\"language\"\t\t\"english\"\n\t\t\"betakey\"\t\t\"experimental\"\n\t}\n\t\"MountedConfig\"\n\t{\n\t\t\"language\"\t\t\"english\"\n\t}\n\t\"installdir\"\t\t\"Satisfactory\"\n}";
    let before = parse_vdf_flat(content);
    let switched = switch_branch(content, &Branch::Stable);
    let after = parse_vdf_flat(&switched);
    assert_eq!(before.len(), 5);
    assert_eq!(after.len(), 6);
    for k in [
        "appstate.appid",
        "appstate.userconfig.language",
        "appstate.mountedconfig.language",
        "appstate.installdir",
    ] {
        assert_eq!(after.get(k), before.get(k));
    }
    assert_eq!(after.get("appstate.userconfig.betakey").unwrap(), "");
    assert_eq!(after.get("appstate.mountedconfig.betakey").unwrap(), "");
    assert!(matches!(detect_branch(&switched), Ok(Branch::Stable)));
}
