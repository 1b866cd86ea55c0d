use claudia_lib::path_utils::{
    add_to_path_if_missing, deduplicate_path, enhance_path_for_common_locations, normalize_path,
    path_contains_dir, CandidateDir,
};

fn cand(dir: &str, present: bool) -> CandidateDir {
    CandidateDir { dir: dir.to_string(), present }
}

#[test]
fn test_path_contains_dir() {
    assert!(path_contains_dir("/usr/bin:/usr/local/bin", "/usr/bin"));
    assert!(path_contains_dir("/usr/bin:/usr/local/bin", "/usr/local/bin"));
    assert!(!path_contains_dir("/usr/bin:/usr/local/bin", "/opt/bin"));

    // Trailing slashes do not hide a directory.
    assert!(path_contains_dir("/usr/bin/:/usr/local/bin", "/usr/bin"));
    assert!(path_contains_dir("/usr/bin:/usr/local/bin/", "/usr/local/bin"));

    // An empty search path holds nothing.
    assert!(!path_contains_dir("", "/usr/bin"));

    // A single directory.
    assert!(path_contains_dir("/usr/bin", "/usr/bin"));
}

#[test]
fn test_normalize_path() {
    // Trailing slash removal.
    assert_eq!(normalize_path("/usr/bin/"), "/usr/bin");
    assert_eq!(normalize_path("/usr/bin"), "/usr/bin");

    // An empty path.
    assert_eq!(normalize_path(""), "");

    // Several trailing slashes.
    assert_eq!(normalize_path("/usr/bin///"), "/usr/bin");
}

#[test]
fn test_deduplicate_path() {
    // Basic deduplication.
    let path = "/usr/bin:/usr/local/bin:/usr/bin:/opt/bin";
    let deduped = deduplicate_path(path);
    assert_eq!(deduped, "/usr/bin:/usr/local/bin:/opt/bin");

    // An empty search path.
    assert_eq!(deduplicate_path(""), "");

    // A single directory.
    assert_eq!(deduplicate_path("/usr/bin"), "/usr/bin");

    // All duplicates.
    assert_eq!(deduplicate_path("/usr/bin:/usr/bin:/usr/bin"), "/usr/bin");

    // Duplicates that differ only by a trailing slash.
    let path = "/usr/bin:/usr/bin/:/opt/bin";
    let deduped = deduplicate_path(path);
    assert_eq!(deduped, "/usr/bin:/opt/bin");

    // Empty entries are dropped.
    let path = "/usr/bin::/opt/bin::";
    let deduped = deduplicate_path(path);
    assert_eq!(deduped, "/usr/bin:/opt/bin");
}

#[test]
fn test_add_to_path_if_missing() {
    // An already present directory leaves the value unchanged.
    let result = add_to_path_if_missing("/usr/bin:/usr/local/bin", "/usr/bin");
    assert_eq!(result, "/usr/bin:/usr/local/bin");

    // A new directory goes to the front.
    let result = add_to_path_if_missing("/usr/bin:/usr/local/bin", "/opt/bin");
    assert_eq!(result, "/opt/bin:/usr/bin:/usr/local/bin");

    // An empty search path becomes the directory alone.
    let result = add_to_path_if_missing("", "/new/bin");
    assert_eq!(result, "/new/bin");

    // A trailing slash on the present entry still counts as present.
    let result = add_to_path_if_missing("/usr/bin/:/usr/local/bin", "/usr/bin");
    assert_eq!(result, "/usr/bin/:/usr/local/bin");
}

#[test]
fn test_path_modification_idempotence() {
    // Once the directory is there, repeated insertion is a no-op.
    let expected_dir = "/Users/test/.nvm/versions/node/v20.0.0/bin";
    let path_with_nvm = format!("{}:/usr/bin:/usr/local/bin", expected_dir);
    let result = add_to_path_if_missing(&path_with_nvm, expected_dir);
    assert_eq!(result, path_with_nvm);
}

#[test]
fn test_add_to_path_then_contains() {
    // Whatever the starting value, the inserted directory is found afterwards.
    for start in ["", "/usr/bin", "/usr/bin:/opt/bin", ":::", "/new/bin/"] {
        let added = add_to_path_if_missing(start, "/new/bin");
        assert!(path_contains_dir(&added, "/new/bin"));
        // And inserting again changes nothing.
        assert_eq!(add_to_path_if_missing(&added, "/new/bin"), added);
    }
}

#[test]
fn test_add_to_path_edge_cases() {
    // A search path of separators only.
    let enhanced = add_to_path_if_missing(":::", "/new/bin");
    assert!(enhanced.contains("/new/bin"));
    assert!(!enhanced.starts_with(':'));

    // A long search path.
    let long_path: String =
        (0..100).map(|i| format!("/path/to/dir{}", i)).collect::<Vec<_>>().join(":");
    let result = add_to_path_if_missing(&long_path, "/new/unique/path");
    assert!(result.contains("/new/unique/path"));

    // Entries with spaces are handled like any other text.
    let result = add_to_path_if_missing("/path with spaces:/normal/path", "/another/path");
    assert!(result.contains("/another/path"));
}

#[test]
fn test_deduplicate_path_idempotent() {
    for p in ["", "/usr/bin:/usr/bin/:/opt/bin::", ":::", "/a:/b:/a:/c:/b", "/a//:/a:/a/"] {
        let once = deduplicate_path(p);
        let twice = deduplicate_path(&once);
        assert_eq!(twice, once);
        // Every kept identity is unique.
        let normals: Vec<String> = once
            .split(':')
            .filter(|s| !s.is_empty())
            .map(normalize_path)
            .collect();
        for i in 0..normals.len() {
            for j in 0..normals.len() {
                if i != j {
                    assert_ne!(normals[i], normals[j]);
                }
            }
        }
    }
}

#[test]
fn test_enhance_path_for_common_locations() {
    let candidates = vec![cand("/test1", true), cand("/test2", true), cand("/test3", false)];

    // An empty current search path takes every present candidate.
    let result = enhance_path_for_common_locations("", &candidates);
    assert!(result.is_some());
    let enhanced = result.unwrap();
    assert!(enhanced.contains("/test1"));
    assert!(enhanced.contains("/test2"));
    assert!(!enhanced.contains("/test3"));
    assert_eq!(enhanced, "/test1:/test2");

    // A candidate already present is not added again.
    let result = enhance_path_for_common_locations("/test1:/usr/bin", &candidates);
    assert!(result.is_some());
    let enhanced = result.unwrap();
    assert!(enhanced.starts_with("/test2"));
    assert_eq!(enhanced, "/test2:/test1:/usr/bin");

    // When every present candidate is already there, nothing qualifies.
    let result = enhance_path_for_common_locations("/test1:/test2", &candidates);
    assert!(result.is_none());

    // Candidates absent from the filesystem never qualify.
    let absent = vec![cand("/this/does/not/exist", false), cand("/neither/does/this", false)];
    let result = enhance_path_for_common_locations("/usr/bin", &absent);
    assert!(result.is_none());
}

#[test]
fn test_enhance_path_deduplicates() {
    // A duplicated inherited value comes back deduplicated.
    let candidates = vec![cand("/opt/new", true)];
    let result = enhance_path_for_common_locations("/usr/bin:/usr/bin:/opt/bin", &candidates);
    assert_eq!(result.unwrap(), "/opt/new:/usr/bin:/opt/bin");
}
