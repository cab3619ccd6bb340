use gif_tool::profile::{
    base_of, clone_name, create_profile_clone, get_default_emotion, is_clone, list_available_profiles,
    profile_info, reset_profile_to_default, resolve_active_profile, set_active_profile,
    set_default_emotion, sync_generated_sdkconfig, DirEntryInfo, ProfileError, ProfileInfo,
};
use gif_tool::sdkconfig::{activate_in_defaults, active_profile_name, update_sdkconfig};

/// The text of a `gif_profile.h` declaring `emotions`, with `default_emotion`.
fn profile_header(default_emotion: &str, emotions: &[&str]) -> String {
    let mut h = String::from("extern \"C\" {\n");
    for e in emotions {
        h.push_str(&format!("    extern const lv_img_dsc_t {};\n", e));
    }
    h.push_str("}\n\n");
    h.push_str(&format!("#define GIF_PROFILE_DEFAULT {}\n\n", default_emotion));
    h.push_str("struct GifEntry { const char* name; const lv_img_dsc_t* dsc; };\n");
    h.push_str("static const GifEntry gif_table[] = {\n");
    for e in emotions {
        h.push_str(&format!("    {{\"{}\", &{}}},\n", e, e));
    }
    h.push_str("};\n");
    h
}

fn detect(defaults: &str, header: &str) -> ProfileInfo {
    let profile = resolve_active_profile(true, Some(defaults)).unwrap();
    let path = format!("/p/main/{}", profile);
    profile_info(profile, path, true, "/p/gif_profile.h", Some(header)).unwrap()
}

#[test]
fn test_profile_detection() {
    let header = r#"
extern "C" {
    extern const lv_img_dsc_t angry;
    extern const lv_img_dsc_t happy;
}

#define GIF_PROFILE_DEFAULT happy

struct GifEntry { const char* name; const lv_img_dsc_t* dsc; };
static const GifEntry gif_table[] = {
    {"angry", &angry},
    {"happy", &happy},
};
"#;
    let info = detect("CONFIG_GIF_PROFILE_NAME=\"floki\"\n", header);
    assert_eq!(info.profile, "floki");
    assert_eq!(info.emotions, vec!["angry", "happy"]);
    assert_eq!(info.symbols, vec!["angry", "happy"]);
}

#[test]
fn test_nonexistent_path() {
    let result = resolve_active_profile(false, None);
    assert!(matches!(result, Err(ProfileError::ProjectNotFound)));
}

#[test]
fn test_base_of() {
    assert_eq!(base_of("floki"), "floki");
    assert_eq!(base_of("floki_1"), "floki");
    assert_eq!(base_of("floki_12"), "floki");
    assert_eq!(base_of("pengu_3"), "pengu");
    // A name with a non-numeric suffix is not treated as a clone.
    assert_eq!(base_of("floki_abc"), "floki_abc");
    assert_eq!(base_of("floki_"), "floki_");
}

#[test]
fn test_is_clone() {
    assert!(!is_clone("floki"));
    assert!(is_clone("floki_1"));
    assert!(is_clone("bduck_42"));
    assert!(!is_clone("floki_abc"));
}

#[test]
fn test_detect_name_override() {
    let header = profile_header("happy", &["angry", "happy"]);
    let info = detect("CONFIG_GIF_PROFILE_FLOKI=y\nCONFIG_GIF_PROFILE_NAME=\"floki_1\"\n", &header);
    assert_eq!(info.profile, "floki_1");
}

#[test]
fn test_detect_fallback_choice() {
    let header = profile_header("neutral", &["neutral", "happy"]);
    let info = detect("CONFIG_GIF_PROFILE_PENGU=y\n", &header);
    assert_eq!(info.profile, "pengu");
}

#[test]
fn test_symbols_parsed_separately_from_keys() {
    let header = "extern \"C\" {\n    extern const lv_img_dsc_t findingWifi;\n    extern const lv_img_dsc_t happy;\n}\n\n#define GIF_PROFILE_DEFAULT findingWifi\n\nstruct GifEntry { const char* name; const lv_img_dsc_t* dsc; };\nstatic const GifEntry gif_table[] = {\n    {\"startup\", &findingWifi},\n    {\"happy\", &happy},\n};\n";
    let info = detect("CONFIG_GIF_PROFILE_FLOKI=y\n", header);
    // Keys come from gif_table[]; symbols come from the extern declarations.
    assert_eq!(info.emotions, vec!["startup", "happy"]);
    assert_eq!(info.symbols, vec!["findingWifi", "happy"]);
    assert!(!info.symbols.contains(&"startup".to_string()));
}

#[test]
fn test_set_active_profile_writes_name_override() {
    let sdk = set_active_profile(true, true, true, Ok("CONFIG_GIF_PROFILE_FLOKI=y\n".to_string()), "floki_1")
        .unwrap();
    assert!(sdk.contains("CONFIG_GIF_PROFILE_NAME=\"floki_1\""));
    assert!(sdk.contains("CONFIG_GIF_PROFILE_FLOKI=y"));
}

#[test]
fn test_set_active_profile_base() {
    let defaults = "# GIF Profile (uncomment one)\nCONFIG_GIF_PROFILE_FLOKI=y\n# CONFIG_GIF_PROFILE_PENGU=y\n# CONFIG_GIF_PROFILE_BDUCK=y\n";
    let sdk = set_active_profile(true, true, true, Ok(defaults.to_string()), "pengu").unwrap();
    assert!(sdk.contains("CONFIG_GIF_PROFILE_PENGU=y"));
    assert!(sdk.contains("CONFIG_GIF_PROFILE_NAME=\"pengu\""));
    // The commented-out alternatives must NOT be clobbered by the regex.
    assert!(sdk.contains("# CONFIG_GIF_PROFILE_BDUCK=y"));
    assert!(sdk.contains("# CONFIG_GIF_PROFILE_PENGU=y"));
}

#[test]
fn test_set_active_profile_syncs_generated_sdkconfig() {
    let generated = "CONFIG_GIF_PROFILE_FLOKI=y\n# CONFIG_GIF_PROFILE_PENGU is not set\n# CONFIG_GIF_PROFILE_BDUCK is not set\nCONFIG_GIF_PROFILE_NAME=\"floki\"\n";
    let sdk = sync_generated_sdkconfig("floki_1", Some(Ok(generated.to_string()))).unwrap().unwrap();
    assert!(sdk.contains("CONFIG_GIF_PROFILE_NAME=\"floki_1\""));
    assert!(sdk.contains("CONFIG_GIF_PROFILE_FLOKI=y"));
    assert!(sdk.contains("# CONFIG_GIF_PROFILE_PENGU is not set"));
    assert!(sdk.contains("# CONFIG_GIF_PROFILE_BDUCK is not set"));
}

#[test]
fn test_sync_generated_sdkconfig() {
    let defaults = "CONFIG_GIF_PROFILE_FLOKI=y\nCONFIG_GIF_PROFILE_NAME=\"floki_1\"\n";
    let generated = "CONFIG_GIF_PROFILE_FLOKI=y\n# CONFIG_GIF_PROFILE_PENGU is not set\n# CONFIG_GIF_PROFILE_BDUCK is not set\nCONFIG_GIF_PROFILE_NAME=\"floki\"\n";
    let active = resolve_active_profile(true, Some(defaults)).unwrap();
    let sdk = sync_generated_sdkconfig(&active, Some(Ok(generated.to_string()))).unwrap().unwrap();
    assert!(sdk.contains("CONFIG_GIF_PROFILE_NAME=\"floki_1\""));
}

#[test]
fn test_create_profile_clone_naming_and_copy() {
    let mut main_entries = vec!["floki".to_string()];
    let n1 = create_profile_clone(true, true, "floki", &main_entries).unwrap();
    assert_eq!(n1, "floki_1");
    main_entries.push(n1.clone());
    let n2 = create_profile_clone(true, true, "floki", &main_entries).unwrap();
    assert_eq!(n2, "floki_2");
    let d1 = set_active_profile(true, true, true, Ok("CONFIG_GIF_PROFILE_FLOKI=y\n".to_string()), &n1).unwrap();
    let d2 = set_active_profile(true, true, true, Ok(d1), &n2).unwrap();
    assert!(d2.contains("CONFIG_GIF_PROFILE_NAME=\"floki_2\""));
}

#[test]
fn clone_takes_first_free_number() {
    let entries: Vec<String> = ["floki", "floki_1", "floki_3", "pengu_2"].iter().map(|s| s.to_string()).collect();
    assert_eq!(create_profile_clone(true, true, "floki", &entries).unwrap(), "floki_2");
    assert_eq!(create_profile_clone(true, true, "pengu", &entries).unwrap(), "pengu_1");
    assert_eq!(clone_name("floki", 12), "floki_12");
}

#[test]
fn clone_checks_checkout_and_base() {
    let entries: Vec<String> = Vec::new();
    assert!(matches!(create_profile_clone(false, true, "floki", &entries), Err(ProfileError::ProjectNotFound)));
    match create_profile_clone(true, false, "floki", &entries) {
        Err(ProfileError::ProfileFolderMissing(n)) => assert_eq!(n, "floki"),
        other => panic!("unexpected {:?}", other),
    }
}

#[test]
fn test_clone_rejects_clone() {
    let err = create_profile_clone(true, true, "floki_1", &vec!["floki".to_string(), "floki_1".to_string()]).unwrap_err();
    assert!(err.message().contains("not another clone"));
}

#[test]
fn test_reset_profile_to_default() {
    let base = profile_header("findingWifi", &["findingWifi", "sleepy"]);
    let clone = profile_header("sleepy", &["findingWifi", "sleepy"]);
    let header = reset_profile_to_default(true, "floki_1", "/b", Some(&base), "/c", Some(&clone)).unwrap();
    assert!(header.contains("#define GIF_PROFILE_DEFAULT findingWifi"));
}

#[test]
fn activation_rewrites_the_first_choice_and_name() {
    let out = activate_in_defaults("A=1\n\nCONFIG_GIF_PROFILE_FLOKI=y\nCONFIG_GIF_PROFILE_NAME=\"floki\"\nB=2\n", "pengu_2");
    // `^\s*` of the choice pattern also takes the blank line before it.
    assert_eq!(out, "A=1\nCONFIG_GIF_PROFILE_PENGU=y\nCONFIG_GIF_PROFILE_NAME=\"pengu_2\"\nB=2\n");
    let out = activate_in_defaults("X=1", "a");
    assert_eq!(out, "X=1\nCONFIG_GIF_PROFILE_NAME=\"a\"\n");
}

#[test]
fn detection_reads_quotes_and_case() {
    assert_eq!(active_profile_name("  CONFIG_GIF_PROFILE_NAME = foo_2\n").unwrap(), "foo_2");
    assert_eq!(active_profile_name("CONFIG_GIF_PROFILE_NAME=\"\"\nCONFIG_GIF_PROFILE_BDUCK=y\n").unwrap(), "bduck");
    assert!(active_profile_name("# CONFIG_GIF_PROFILE_BDUCK=y\n").is_none());
    assert!(matches!(resolve_active_profile(true, Some("")), Err(ProfileError::NoProfileConfigured)));
    assert!(matches!(resolve_active_profile(true, None), Err(ProfileError::NoSdkConfig)));
}

#[test]
fn regeneration_rewrites_profile_lines() {
    let out = update_sdkconfig("A\r\n  CONFIG_GIF_PROFILE_NAME=\"x\"\nCONFIG_GIF_PROFILE_PENGU=y\nX CONFIG_GIF_PROFILE_FLOKI is not set\n", "floki_3");
    assert_eq!(
        out,
        "A\nCONFIG_GIF_PROFILE_NAME=\"floki_3\"\n# CONFIG_GIF_PROFILE_PENGU is not set\nCONFIG_GIF_PROFILE_FLOKI=y\n"
    );
    let out = update_sdkconfig("B=1", "p");
    assert_eq!(out, "B=1\nCONFIG_GIF_PROFILE_NAME=\"p\"\n");
    assert!(sync_generated_sdkconfig("p", None).unwrap().is_none());
    assert!(matches!(sync_generated_sdkconfig("p", Some(Err("e".to_string()))), Err(ProfileError::WriteError(m)) if m == "e"));
}

#[test]
fn default_emotion_get_and_set() {
    let header = profile_header("happy", &["angry", "happy"]);
    assert_eq!(get_default_emotion(Ok(header.clone())).unwrap(), "happy");
    let info = detect("CONFIG_GIF_PROFILE_FLOKI=y\n", &header);
    let updated = set_default_emotion(&info, "angry", Ok(header.clone())).unwrap();
    assert_eq!(get_default_emotion(Ok(updated)).unwrap(), "angry");
    let err = set_default_emotion(&info, "startup", Ok(header)).unwrap_err();
    assert_eq!(
        err.message(),
        "Cannot parse 'startup' is not a valid default emotion symbol in this profile. File may be corrupted."
    );
    assert!(matches!(get_default_emotion(Ok("none".to_string())), Err(ProfileError::MalformedGifTable(m)) if m == "Cannot find GIF_PROFILE_DEFAULT"));
}

#[test]
fn profile_info_errors() {
    assert!(matches!(profile_info("x".to_string(), "/p".to_string(), false, "/h", None), Err(ProfileError::ProfileFolderMissing(p)) if p == "x"));
    assert!(matches!(profile_info("x".to_string(), "/p".to_string(), true, "/h", Some("{}")), Err(ProfileError::MalformedGifTable(p)) if p == "/h"));
    assert_eq!(
        ProfileError::ProfileFolderMissing("x".to_string()).message(),
        "Profile 'x' configured but main/x/ folder missing."
    );
}

#[test]
fn listing_sorts_profile_folders() {
    let e = |n: &str, d: bool, h: bool| DirEntryInfo { name: Some(n.to_string()), is_dir: d, has_header: h };
    let entries = vec![e("pengu", true, true), e("build", true, false), e("floki_1", true, true), e("x.c", false, true), e("floki", true, true)];
    let listed = list_available_profiles(true, true, &entries).unwrap();
    assert_eq!(listed, vec!["floki", "floki_1", "pengu"]);
    assert!(list_available_profiles(true, false, &entries).unwrap().is_empty());
    assert!(matches!(list_available_profiles(false, true, &entries), Err(ProfileError::ProjectNotFound)));
}

#[test]
fn activated_profile_is_detected() {
    let defaults = [
        "CONFIG_GIF_PROFILE_FLOKI=y\n",
        "CONFIG_GIF_PROFILE_FLOKI=y\nCONFIG_GIF_PROFILE_NAME=\"floki_1\"\n",
        "X=1\n  CONFIG_GIF_PROFILE_NAME = pengu\nCONFIG_GIF_PROFILE_PENGU=y\n",
        "",
    ];
    for d in defaults {
        for name in ["floki", "floki_1", "pengu_12", "A_b9"] {
            let updated = set_active_profile(true, true, true, Ok(d.to_string()), name).unwrap();
            assert_eq!(resolve_active_profile(true, Some(&updated)).unwrap(), name);
        }
    }
}

#[test]
fn detection_stops_at_characters_outside_names() {
    // A name outside `[A-Za-z0-9_]+` is not read back whole.
    let updated = set_active_profile(true, true, true, Ok(String::new()), "floki-1").unwrap();
    assert_eq!(resolve_active_profile(true, Some(&updated)).unwrap(), "floki");
}

#[test]
fn a_clone_is_a_clone_of_its_base() {
    let entries: Vec<String> = vec!["pengu".to_string(), "pengu_1".to_string()];
    let name = create_profile_clone(true, true, "pengu", &entries).unwrap();
    assert_eq!(name, "pengu_2");
    assert!(is_clone(&name));
    assert_eq!(base_of(&name), "pengu");
}

#[test]
fn syncing_twice_changes_nothing() {
    let generated = [
        "CONFIG_A=1\nCONFIG_GIF_PROFILE_NAME=\"pengu\"\nCONFIG_GIF_PROFILE_PENGU=y\n# CONFIG_GIF_PROFILE_FLOKI is not set\n",
        "  CONFIG_GIF_PROFILE_BDUCK=y\r\nX=2",
        "",
    ];
    for g in generated {
        for name in ["floki", "floki_1", "pengu_2"] {
            let once = update_sdkconfig(g, name);
            assert_eq!(update_sdkconfig(&once, name), once);
        }
    }
}

#[test]
fn a_kept_line_ending_in_carriage_return_changes_again() {
    let once = update_sdkconfig("X=1\r\r\n", "floki");
    assert_ne!(update_sdkconfig(&once, "floki"), once);
}

#[test]
fn activating_a_clone_writes_its_name_and_its_base_choice() {
    let d = "X=1\nCONFIG_GIF_PROFILE_PENGU=y\nCONFIG_GIF_PROFILE_NAME=\"pengu\"\n";
    let out = set_active_profile(true, true, true, Ok(d.to_string()), "floki_3").unwrap();
    assert!(out.contains("CONFIG_GIF_PROFILE_NAME=\"floki_3\""));
    let first_choice = out.lines().find(|l| l.trim_start().starts_with("CONFIG_GIF_PROFILE_") && l.ends_with("=y")).unwrap();
    assert_eq!(first_choice, "CONFIG_GIF_PROFILE_FLOKI=y");
}

#[test]
fn listing_distinct_entries_has_no_duplicates() {
    let entries: Vec<DirEntryInfo> = ["b", "a", "c"]
        .iter()
        .map(|n| DirEntryInfo { name: Some(n.to_string()), is_dir: true, has_header: true })
        .collect();
    let v = list_available_profiles(true, true, &entries).unwrap();
    assert_eq!(v, vec!["a", "b", "c"]);
}

#[test]
fn resetting_a_base_profile_leaves_its_header() {
    let h = profile_header("happy", &["happy", "angry"]);
    let out = reset_profile_to_default(true, "floki", "/b", Some(&h), "/p", Some(&h)).unwrap();
    assert_eq!(out, h);
}

#[test]
fn a_base_named_name_keeps_its_choice_after_an_earlier_name_line() {
    let d = "CONFIG_GIF_PROFILE_NAME=\"floki\"\nCONFIG_GIF_PROFILE_FLOKI=y\n";
    let out = set_active_profile(true, true, true, Ok(d.to_string()), "name_1").unwrap();
    assert_eq!(out, "CONFIG_GIF_PROFILE_NAME=\"name_1\"\nCONFIG_GIF_PROFILE_NAME=y\n");
}
