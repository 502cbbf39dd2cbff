use steam_meta::steam_util::CandidateProbe;
use steam_meta::steam_util::LibraryFolderScan;
use steam_meta::steam_util::SteamUtil;
use steam_meta::steam_util::SteamUtilError;
use steam_meta::steam_util::ToolDescriptor;

fn tool_vdf(n: u32) -> String {
    format!(
        r#""compatibilitytools"
            {{
              "compat_tools"
              {{
                "Sample-Compatibility-Tool-{}"
                {{
                  "install_path" "."
                  "display_name" "Sample Compatibility Tool {}"
                  "from_oslist"  "windows"
                  "to_oslist"    "linux"
                }}
              }}
            }}"#,
        n, n
    )
}

fn steam_config_vdf() -> String {
    r#""InstallConfigStore"
            {
                "Software"
                {
                    "Valve"
                    {
                        "Steam"
                        {
                            "CompatToolMapping"
                            {
                                "730"
                                {
                                    "name"		"Sample-Compatibility-Tool-1"
                                    "config"		""
                                    "priority"		"250"
                                }
                                "1145360"
                                {
                                    "name"		"Sample-Compatibility-Tool-2"
                                    "config"		""
                                    "priority"		"250"
                                }
                            }
                        }
                    }
                }
            }
            "#
    .to_string()
}

fn hades_manifest() -> String {
    r#""AppState"
            {
                "appid"		"1145360"
                "name"		"Hades"
            }
            "#
    .to_string()
}

fn csgo_manifest() -> String {
    r#""AppState"
            {
                "appid"		"730"
                "name"		"Counter-Strike: Global Offensive"
            }
            "#
    .to_string()
}

pub fn shortcuts_blob() -> Vec<u8> {
    vec![
        0x00, 0x73, 0x68, 0x6f, 0x72, 0x74, 0x63, 0x75, 0x74, 0x73, 0x00, 0x00, 0x30, 0x00, 0x02,
        0x61, 0x70, 0x70, 0x69, 0x64, 0x00, 0x61, 0x6e, 0x4b, 0xd5, 0x01, 0x41, 0x70, 0x70, 0x4e,
        0x61, 0x6d, 0x65, 0x00, 0x41, 0x6e, 0x20, 0x41, 0x6e, 0x69, 0x6d, 0x65, 0x20, 0x47, 0x61,
        0x6d, 0x65, 0x20, 0x4c, 0x61, 0x75, 0x6e, 0x63, 0x68, 0x65, 0x72, 0x00, 0x01, 0x45, 0x78,
        0x65, 0x00, 0x22, 0x61, 0x6e, 0x2d, 0x61, 0x6e, 0x69, 0x6d, 0x65, 0x2d, 0x67, 0x61, 0x6d,
        0x65, 0x2d, 0x6c, 0x61, 0x75, 0x6e, 0x63, 0x68, 0x65, 0x72, 0x22, 0x00, 0x01, 0x53, 0x74,
        0x61, 0x72, 0x74, 0x44, 0x69, 0x72, 0x00, 0x2e, 0x2f, 0x00, 0x01, 0x69, 0x63, 0x6f, 0x6e,
        0x00, 0x00, 0x01, 0x53, 0x68, 0x6f, 0x72, 0x74, 0x63, 0x75, 0x74, 0x50, 0x61, 0x74, 0x68,
        0x00, 0x2f, 0x75, 0x73, 0x72, 0x2f, 0x73, 0x68, 0x61, 0x72, 0x65, 0x2f, 0x61, 0x70, 0x70,
        0x6c, 0x69, 0x63, 0x61, 0x74, 0x69, 0x6f, 0x6e, 0x73, 0x2f, 0x61, 0x6e, 0x2d, 0x61, 0x6e,
        0x69, 0x6d, 0x65, 0x2d, 0x67, 0x61, 0x6d, 0x65, 0x2d, 0x6c, 0x61, 0x75, 0x6e, 0x63, 0x68,
        0x65, 0x72, 0x2e, 0x64, 0x65, 0x73, 0x6b, 0x74, 0x6f, 0x70, 0x00, 0x01, 0x4c, 0x61, 0x75,
        0x6e, 0x63, 0x68, 0x4f, 0x70, 0x74, 0x69, 0x6f, 0x6e, 0x73, 0x00, 0x00, 0x02, 0x49, 0x73,
        0x48, 0x69, 0x64, 0x64, 0x65, 0x6e, 0x00, 0x00, 0x00, 0x00, 0x00, 0x02, 0x41, 0x6c, 0x6c,
        0x6f, 0x77, 0x44, 0x65, 0x73, 0x6b, 0x74, 0x6f, 0x70, 0x43, 0x6f, 0x6e, 0x66, 0x69, 0x67,
        0x00, 0x01, 0x00, 0x00, 0x00, 0x02, 0x41, 0x6c, 0x6c, 0x6f, 0x77, 0x4f, 0x76, 0x65, 0x72,
        0x6c, 0x61, 0x79, 0x00, 0x01, 0x00, 0x00, 0x00, 0x02, 0x4f, 0x70, 0x65, 0x6e, 0x56, 0x52,
        0x00, 0x00, 0x00, 0x00, 0x00, 0x02, 0x44, 0x65, 0x76, 0x6b, 0x69, 0x74, 0x00, 0x00, 0x00,
        0x00, 0x00, 0x01, 0x44, 0x65, 0x76, 0x6b, 0x69, 0x74, 0x47, 0x61, 0x6d, 0x65, 0x49, 0x44,
        0x00, 0x00, 0x02, 0x44, 0x65, 0x76, 0x6b, 0x69, 0x74, 0x4f, 0x76, 0x65, 0x72, 0x72, 0x69,
        0x64, 0x65, 0x41, 0x70, 0x70, 0x49, 0x44, 0x00, 0x00, 0x00, 0x00, 0x00, 0x02, 0x4c, 0x61,
        0x73, 0x74, 0x50, 0x6c, 0x61, 0x79, 0x54, 0x69, 0x6d, 0x65, 0x00, 0x00, 0x00, 0x00, 0x00,
        0x01, 0x46, 0x6c, 0x61, 0x74, 0x70, 0x61, 0x6b, 0x41, 0x70, 0x70, 0x49, 0x44, 0x00, 0x00,
        0x00, 0x74, 0x61, 0x67, 0x73, 0x00, 0x08, 0x08, 0x08, 0x08,
    ]
}

#[test]
fn test_list_compatibility_tools() {
    let steam_util = SteamUtil::new("/tmp/steam/root".to_string());
    let descriptors = vec![
        ToolDescriptor {
            path: "/tmp/steam/root/compatibilitytools.d/compat_tool_2".to_string(),
            directory_name: "compat_tool_2".to_string(),
            vdf_text: tool_vdf(2),
        },
        ToolDescriptor {
            path: "/tmp/steam/root/compatibilitytools.d/compat_tool_1".to_string(),
            directory_name: "compat_tool_1".to_string(),
            vdf_text: tool_vdf(1),
        },
    ];
    let result = steam_util.list_compatibility_tools(&descriptors);
    assert!(result.is_ok());
    let compat_tools = result.unwrap();
    assert_eq!(compat_tools.len(), 2);
    assert_eq!(compat_tools[0].display_name, "Sample Compatibility Tool 2");
    assert_eq!(compat_tools[1].display_name, "Sample Compatibility Tool 1");
}

#[test]
fn test_get_compatibility_tools_mappings() {
    let steam_util = SteamUtil::new("/tmp/steam/root".to_string());
    let config = steam_config_vdf();
    let result = steam_util.get_compatibility_tools_mappings(Some(&config));
    assert!(result.is_ok());
    let compat_tools_mappings = result.unwrap();
    assert_eq!(compat_tools_mappings.len(), 2);
    assert_eq!(
        compat_tools_mappings.get(&730),
        Some(&"Sample-Compatibility-Tool-1".to_string())
    );
    assert_eq!(
        compat_tools_mappings.get(&1145360),
        Some(&"Sample-Compatibility-Tool-2".to_string())
    );
}

#[test]
fn test_list_installed_games() {
    let steam_util = SteamUtil::new("/tmp/steam/root".to_string());
    let folders = vec![LibraryFolderScan {
        steamapps_exists: true,
        manifest_texts: vec![hades_manifest(), csgo_manifest()],
    }];
    let result = steam_util.list_installed_applications(&folders);
    assert!(result.is_ok());
    let installed_games = result.unwrap();
    assert_eq!(installed_games.len(), 2);
    assert_eq!(installed_games[0].name, "Hades");
    assert_eq!(installed_games[1].name, "Counter-Strike: Global Offensive");
}

#[test]
fn test_list_shortcuts() {
    let steam_util = SteamUtil::new("/tmp/steam/root".to_string());
    let files = vec![shortcuts_blob()];
    let result = steam_util.list_shortcuts(&files);
    assert!(result.is_ok());
    let shortcuts = result.unwrap();
    assert_eq!(shortcuts.len(), 1);
    assert_eq!(shortcuts[0].name, "An Anime Game Launcher");
    assert!(shortcuts[0].shortcut);
    assert_eq!(shortcuts[0].app_id, 0xd54b6e61);
}

#[test]
fn find_prefers_first_accepted_candidate() {
    let probes = vec![
        CandidateProbe {
            path: "/home/u/.local/share/Steam".to_string(),
            has_main_config: true,
            has_library_folders: false,
        },
        CandidateProbe {
            path: "/home/u/.steam/root".to_string(),
            has_main_config: true,
            has_library_folders: true,
        },
        CandidateProbe {
            path: "/home/u/.steam/steam".to_string(),
            has_main_config: true,
            has_library_folders: true,
        },
    ];
    let found = SteamUtil::find(Some("/home/u".to_string()), None, &probes).unwrap();
    assert_eq!(found.steam_path, "/home/u/.steam/root");
}

#[test]
fn find_without_home_fails() {
    let r = SteamUtil::find(None, None, &vec![]);
    assert!(matches!(r, Err(SteamUtilError::HomeDirectoryNotFound)));
}

#[test]
fn find_without_accepted_candidate_fails() {
    let probes = vec![CandidateProbe {
        path: "/home/u/.steam/root".to_string(),
        has_main_config: true,
        has_library_folders: false,
    }];
    let r = SteamUtil::find(Some("/home/u".to_string()), None, &probes);
    assert!(matches!(r, Err(SteamUtilError::SteamDirectoryNotFound)));
}

#[test]
fn steam_root_candidates_are_the_known_layouts() {
    let c = steam_meta::steam_util::steam_root_candidates("/home/u");
    assert_eq!(
        c,
        vec![
            "/home/u/.local/share/Steam".to_string(),
            "/home/u/.steam/root".to_string(),
            "/home/u/.steam/steam".to_string(),
            "/home/u/.steam/debian-installation".to_string(),
            "/home/u/.var/app/com.valvesoftware.Steam/data/Steam".to_string(),
        ]
    );
}

#[test]
fn library_folders_come_from_path_entries() {
    let steam_util = SteamUtil::new("/tmp/steam/root".to_string());
    let text = r#""libraryfolders"
        {
            "0"
            {
                "path"		"/mnt/disk1"
                "label"		""
            }
            "1"
            {
                "path"		"/mnt/disk2"
            }
            "2"
            {
                "path"		""
            }
        }
        "#
    .to_string();
    let folders = steam_util.list_library_folders(true, Some(&text)).unwrap();
    assert_eq!(folders, vec!["/mnt/disk1".to_string(), "/mnt/disk2".to_string()]);
}

#[test]
fn library_folders_directory_missing_is_its_own_error() {
    let steam_util = SteamUtil::new("/tmp/steam/root".to_string());
    let r = steam_util.list_library_folders(false, None);
    assert!(matches!(r, Err(SteamUtilError::SteamAppsDirectoryNotFound)));
}

#[test]
fn library_folders_document_missing_is_its_own_error() {
    let steam_util = SteamUtil::new("/tmp/steam/root".to_string());
    let r = steam_util.list_library_folders(true, None);
    assert!(matches!(r, Err(SteamUtilError::LibraryFoldersVdfNotFound)));
}

#[test]
fn library_folders_entry_without_path_is_missing_key() {
    let steam_util = SteamUtil::new("/tmp/steam/root".to_string());
    let text = r#""libraryfolders" { "0" { "label" "" } }"#.to_string();
    let r = steam_util.list_library_folders(true, Some(&text));
    assert!(matches!(r, Err(SteamUtilError::MissingKeyError(s)) if s == "path"));
}

#[test]
fn unparseable_document_is_a_parsing_error() {
    let steam_util = SteamUtil::new("/tmp/steam/root".to_string());
    let text = "\"libraryfolders\" {".to_string();
    let r = steam_util.list_library_folders(true, Some(&text));
    assert!(matches!(r, Err(SteamUtilError::VdfParsingError(_))));
}

#[test]
fn catalog_shares_duplicate_ids_first_folder_wins() {
    let steam_util = SteamUtil::new("/tmp/steam/root".to_string());
    let game_a_1 = r#""AppState" { "appid" "730" "name" "Game A" }"#.to_string();
    let game_a_2 = r#""AppState" { "appid" "730" "name" "Game A" }"#.to_string();
    let game_b = r#""AppState" { "appid" "42" "name" "Game B" }"#.to_string();
    let folders = vec![
        LibraryFolderScan { steamapps_exists: true, manifest_texts: vec![game_a_1] },
        LibraryFolderScan { steamapps_exists: true, manifest_texts: vec![game_a_2, game_b] },
    ];
    let catalog = steam_util.list_installed_applications(&folders).unwrap();
    assert_eq!(catalog.len(), 2);
    assert_eq!(catalog[0].app_id, 730);
    assert_eq!(catalog[0].name, "Game A");
    assert_eq!(catalog[1].app_id, 42);
    assert_eq!(catalog[1].name, "Game B");
    assert_eq!(catalog.iter().filter(|a| a.app_id == 42).count(), 1);
}

#[test]
fn catalog_skips_absent_folders_but_fails_on_bad_manifests() {
    let steam_util = SteamUtil::new("/tmp/steam/root".to_string());
    let folders = vec![
        LibraryFolderScan { steamapps_exists: false, manifest_texts: vec![] },
        LibraryFolderScan {
            steamapps_exists: true,
            manifest_texts: vec![r#""AppState" { "name" "No Id" }"#.to_string()],
        },
    ];
    let r = steam_util.list_installed_applications(&folders);
    assert!(matches!(r, Err(SteamUtilError::MissingKeyError(s)) if s == "appid"));
}

#[test]
fn manifest_with_unparseable_id_is_a_parsing_error() {
    let steam_util = SteamUtil::new("/tmp/steam/root".to_string());
    let folders = vec![LibraryFolderScan {
        steamapps_exists: true,
        manifest_texts: vec![r#""AppState" { "appid" "x9" "name" "Bad" }"#.to_string()],
    }];
    let r = steam_util.list_installed_applications(&folders);
    assert!(matches!(r, Err(SteamUtilError::VdfParsingError(s)) if s == "x9"));
}

#[test]
fn mappings_missing_file_is_its_own_error() {
    let steam_util = SteamUtil::new("/tmp/steam/root".to_string());
    let r = steam_util.get_compatibility_tools_mappings(None);
    assert!(matches!(r, Err(SteamUtilError::SteamConfigVdfNotFound)));
}

#[test]
fn mappings_absent_path_is_an_empty_mapping() {
    let steam_util = SteamUtil::new("/tmp/steam/root".to_string());
    let text = r#""InstallConfigStore" { "Software" { "Valve" { "Steam" { } } } }"#.to_string();
    let m = steam_util.get_compatibility_tools_mappings(Some(&text)).unwrap();
    assert!(m.is_empty());
}

#[test]
fn mappings_tolerate_lowercased_levels_and_drop_blank_names() {
    let steam_util = SteamUtil::new("/tmp/steam/root".to_string());
    let text = r#""InstallConfigStore"
        {
            "Software"
            {
                "valve"
                {
                    "Steam"
                    {
                        "CompatToolMapping"
                        {
                            "10" { "name" "tool-a" }
                            "20" { "name" "" }
                        }
                    }
                }
            }
        }"#
    .to_string();
    let m = steam_util.get_compatibility_tools_mappings(Some(&text)).unwrap();
    assert_eq!(m.len(), 1);
    assert_eq!(m.get(&10), Some(&"tool-a".to_string()));
}

#[test]
fn tool_descriptor_missing_field_names_the_field() {
    let steam_util = SteamUtil::new("/tmp/steam/root".to_string());
    let text = r#""compatibilitytools"
        {
          "compat_tools"
          {
            "Tool-X"
            {
              "install_path" "."
              "display_name" "Tool X"
              "to_oslist"    "linux"
            }
          }
        }"#
    .to_string();
    let r = steam_util.read_compatibility_tool_from_vdf_path(
        &text,
        "/p/tool_x".to_string(),
        "tool_x".to_string(),
    );
    assert!(matches!(r, Err(SteamUtilError::MissingKeyError(s)) if s == "from_oslist"));
}

#[test]
fn userdata_filter_keeps_referenced_apps_once_in_reference_order() {
    let steam_util = SteamUtil::new("/tmp/steam/root".to_string());
    let folders = vec![LibraryFolderScan {
        steamapps_exists: true,
        manifest_texts: vec![hades_manifest(), csgo_manifest()],
    }];
    let local = r#""UserLocalConfigStore"
        {
            "Software"
            {
                "Valve"
                {
                    "Steam"
                    {
                        "apps"
                        {
                            "730" { }
                            "999" { }
                            "730" { }
                        }
                    }
                }
            }
        }"#
    .to_string();
    let apps = steam_util
        .list_installed_applications_by_userdata(&folders, &vec![local])
        .unwrap();
    assert_eq!(apps.len(), 1);
    assert_eq!(apps[0].app_id, 730);
    assert_eq!(apps[0].name, "Counter-Strike: Global Offensive");
}

#[test]
fn errors_describe_themselves() {
    assert_eq!(
        SteamUtilError::HomeDirectoryNotFound.describe(),
        "Home directory not found"
    );
    assert_eq!(
        SteamUtilError::MissingKeyError("path".to_string()).describe(),
        "Missing key: path"
    );
    assert_eq!(
        SteamUtilError::VdfParsingError("x".to_string()).describe(),
        "Failed to parse VDF file: x"
    );
}

#[test]
fn userdata_unparseable_config_is_skipped() {
    let steam_util = SteamUtil::new("/tmp/steam/root".to_string());
    let folders = vec![LibraryFolderScan {
        steamapps_exists: true,
        manifest_texts: vec![hades_manifest()],
    }];
    let apps = steam_util
        .list_installed_applications_by_userdata(&folders, &vec!["not a document".to_string()])
        .unwrap();
    assert!(apps.is_empty());
}
