use claudia_lib::claude_binary::{
    build_execution_environment, build_search_path, containing_dir, current_search_path,
    select_best_installation, ClaudeInstallation, ClaudeVersion, EnvVar, InstallationType,
};

fn install(path: &str, version: Option<ClaudeVersion>) -> ClaudeInstallation {
    ClaudeInstallation {
        path: path.to_string(),
        version,
        install_type: InstallationType::Direct,
    }
}

fn version(major: u64, minor: u64, patch: u64) -> Option<ClaudeVersion> {
    Some(ClaudeVersion { major, minor, patch })
}

#[test]
fn test_claude_version_parsing() {
    // Valid version strings.
    let v1 = ClaudeVersion::from_str("claudia version: 1.0.0").unwrap();
    assert_eq!(v1.major, 1);
    assert_eq!(v1.minor, 0);
    assert_eq!(v1.patch, 0);

    let v2 = ClaudeVersion::from_str("Claudia version: 2.3.4-beta").unwrap();
    assert_eq!(v2.major, 2);
    assert_eq!(v2.minor, 3);
    assert_eq!(v2.patch, 4);

    // Invalid version strings.
    assert!(ClaudeVersion::from_str("invalid").is_none());
    assert!(ClaudeVersion::from_str("claudia version: invalid").is_none());
}

#[test]
fn test_claude_version_comparison() {
    let v1 = ClaudeVersion { major: 1, minor: 0, patch: 0 };
    let v2 = ClaudeVersion { major: 1, minor: 0, patch: 1 };
    let v3 = ClaudeVersion { major: 1, minor: 1, patch: 0 };
    let v4 = ClaudeVersion { major: 2, minor: 0, patch: 0 };

    assert!(v1 < v2);
    assert!(v2 < v3);
    assert!(v3 < v4);
    assert!(v1 < v4);

    let v5 = ClaudeVersion { major: 1, minor: 0, patch: 0 };
    assert_eq!(v1, v5);
}

#[test]
fn test_version_parsing_details() {
    // The keyword is matched in either case.
    let v = ClaudeVersion::from_str("claudia VERSION: 7.8.9").unwrap();
    assert_eq!((v.major, v.minor, v.patch), (7, 8, 9));

    // No space after the keyword is needed, and several are fine.
    let v = ClaudeVersion::from_str("version:1.2.3").unwrap();
    assert_eq!((v.major, v.minor, v.patch), (1, 2, 3));
    let v = ClaudeVersion::from_str("version:   10.20.30 extra words").unwrap();
    assert_eq!((v.major, v.minor, v.patch), (10, 20, 30));

    // The first full match wins; an incomplete one is passed over.
    let v = ClaudeVersion::from_str("version: x, but version: 4.5.6 works").unwrap();
    assert_eq!((v.major, v.minor, v.patch), (4, 5, 6));

    // Two numbers are not a version.
    assert!(ClaudeVersion::from_str("version: 1.2").is_none());

    // A number at the field's limit is taken; one past it is not.
    let v = ClaudeVersion::from_str("version: 18446744073709551615.0.0").unwrap();
    assert_eq!(v.major, u64::MAX);
    assert!(ClaudeVersion::from_str("version: 18446744073709551616.0.0").is_none());

    // Empty input.
    assert!(ClaudeVersion::from_str("").is_none());
}

#[test]
fn test_claude_installation_info() {
    let info = ClaudeInstallation {
        path: "/opt/claudia/bin/claudia".to_string(),
        version: Some(ClaudeVersion { major: 1, minor: 2, patch: 3 }),
        install_type: InstallationType::Direct,
    };

    assert_eq!(info.path, "/opt/claudia/bin/claudia");
    assert!(info.version.is_some());
    assert_eq!(info.version.unwrap().major, 1);
}

#[test]
fn test_select_best_installation() {
    // The highest version wins, wherever it stands.
    let installations = vec![
        install("/usr/local/bin/claudia", version(1, 0, 0)),
        install("/home/u/.nvm/versions/node/v18.0.0/bin/claudia", version(1, 1, 0)),
        install("/home/u/.nvm/versions/node/v20.0.0/bin/claudia", version(1, 2, 0)),
        install("/opt/homebrew/bin/claudia", version(1, 0, 5)),
    ];
    assert_eq!(select_best_installation(&installations), Some(2));

    // Among equal versions the earliest probe wins.
    let tied = vec![
        install("/a/claudia", version(2, 0, 0)),
        install("/b/claudia", version(2, 0, 0)),
        install("/c/claudia", version(1, 9, 9)),
    ];
    assert_eq!(select_best_installation(&tied), Some(0));

    // A reported version outranks an absent one.
    let mixed = vec![
        install("/a/claudia", None),
        install("/b/claudia", version(0, 0, 1)),
        install("/c/claudia", None),
    ];
    assert_eq!(select_best_installation(&mixed), Some(1));

    // All absent: the earliest probe wins.
    let absent = vec![install("/a/claudia", None), install("/b/claudia", None)];
    assert_eq!(select_best_installation(&absent), Some(0));

    // Nothing discovered, nothing chosen.
    assert_eq!(select_best_installation(&Vec::new()), None);
}

#[test]
fn test_containing_dir() {
    assert_eq!(containing_dir("/usr/bin/claudia"), "/usr/bin");
    assert_eq!(containing_dir("/claudia"), "/");
    assert_eq!(containing_dir("claudia"), "");
}

#[test]
fn test_build_search_path() {
    // The executable's directory is put in front, the rest deduplicated.
    let built = build_search_path(
        "/Users/test/.nvm/versions/node/v20.0.0/bin/claudia",
        "/usr/bin:/usr/local/bin",
    );
    assert_eq!(built, "/Users/test/.nvm/versions/node/v20.0.0/bin:/usr/bin:/usr/local/bin");

    // Already present: only deduplication happens.
    let built = build_search_path("/opt/bin/claudia", "/usr/bin:/usr/local/bin:/usr/bin:/opt/bin");
    assert_eq!(built, "/usr/bin:/usr/local/bin:/opt/bin");
}

#[test]
fn test_search_path_growth_bounded() {
    // Ten repeated launches never duplicate the executable's directory.
    let exe = "/Users/test/.nvm/versions/node/v20.0.0/bin/claudia";
    let nvm_dir = "/Users/test/.nvm/versions/node/v20.0.0/bin";
    let mut path = String::from("/usr/bin:/usr/local/bin:/opt/homebrew/bin");
    for _ in 0..10 {
        path = build_search_path(exe, &path);
        let count = path.split(':').filter(|p| *p == nvm_dir).count();
        assert_eq!(count, 1, "NVM directory should only appear once in PATH");
    }
    assert_eq!(path, "/Users/test/.nvm/versions/node/v20.0.0/bin:/usr/bin:/usr/local/bin:/opt/homebrew/bin");
}

#[test]
fn test_current_search_path() {
    let env = vec![
        EnvVar { name: "HOME".to_string(), value: "/home/u".to_string() },
        EnvVar { name: "PATH".to_string(), value: "/usr/bin".to_string() },
    ];
    assert_eq!(current_search_path(&env), "/usr/bin");
    assert_eq!(current_search_path(&Vec::new()), "");
}

#[test]
fn test_build_execution_environment() {
    let env = vec![
        EnvVar { name: "HOME".to_string(), value: "/home/u".to_string() },
        EnvVar { name: "PATH".to_string(), value: "/usr/bin:/usr/local/bin".to_string() },
        EnvVar { name: "LANG".to_string(), value: "en_US.UTF-8".to_string() },
    ];
    let exe = "/home/u/.nvm/versions/node/v20.0.0/bin/claudia";
    let built = build_execution_environment(exe, &env);

    assert_eq!(built.executable_path, exe);
    assert_eq!(built.environment.len(), 3);
    // Other variables are untouched, in place.
    assert_eq!(built.environment[0].name, "HOME");
    assert_eq!(built.environment[0].value, "/home/u");
    assert_eq!(built.environment[2].name, "LANG");
    assert_eq!(built.environment[2].value, "en_US.UTF-8");
    // The search path now leads with the executable's directory.
    assert_eq!(built.environment[1].name, "PATH");
    assert_eq!(
        built.environment[1].value,
        "/home/u/.nvm/versions/node/v20.0.0/bin:/usr/bin:/usr/local/bin"
    );
}

#[test]
fn test_build_execution_environment_without_path() {
    // An environment without a search path gets one appended.
    let env = vec![EnvVar { name: "HOME".to_string(), value: "/home/u".to_string() }];
    let built = build_execution_environment("/usr/bin/claudia", &env);
    assert_eq!(built.environment.len(), 2);
    assert_eq!(built.environment[1].name, "PATH");
    assert_eq!(built.environment[1].value, "/usr/bin");
}
