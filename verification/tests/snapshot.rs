use forall_toolkit::snapshot::{
    candidate_path, canonical_root, collect_support_files, forall_entry, github_source,
    is_excluded_component, is_mapping_delta, is_secret_file, mapping_file_fields, path_set,
    portable_relative_path, relative_path, select_canonical, should_descend, support_entry,
    support_file_names, validate_relative, workspace_entry, FileMetadata, SnapshotError,
    SnapshotFile, SnapshotPacker, YamlNode, MAX_FILE_BYTES, MAX_SNAPSHOT_FILES,
};
use forall_toolkit::wire::{InlineFile, VerificationSource};

const ROOT: &str = "/work/repo";

fn file(path: &str, content: &str) -> SnapshotFile {
    SnapshotFile {
        path: format!("{ROOT}/{path}"),
        metadata: Ok(FileMetadata {
            is_file: true,
            len: content.len() as u64,
        }),
        content: Some(Ok(content.as_bytes().to_vec())),
    }
}

fn walk(paths: &[&str]) -> Vec<String> {
    let candidates: Vec<String> = paths
        .iter()
        .map(|p| format!("{ROOT}/{p}"))
        .filter(|p| should_descend(ROOT, p))
        .filter(|p| workspace_entry(ROOT, p, false, true).unwrap())
        .collect();
    path_set(candidates)
}

fn inline_paths(source: VerificationSource) -> Vec<String> {
    match source {
        VerificationSource::Inline { files } => files.into_iter().map(|f| f.path).collect(),
        other => panic!("expected inline source, got {other:?}"),
    }
}

#[test]
fn snapshot_is_sorted_and_excludes_secrets_and_build_outputs() {
    let selected = walk(&[
        ".forall/verify/mapping.yaml",
        "src/z.rs",
        "src/a.rs",
        "support/data.txt",
        ".env",
        ".git/config",
        "target/output.txt",
    ]);
    let files = selected
        .iter()
        .map(|p| file(p.strip_prefix("/work/repo/").unwrap(), "x\n"))
        .collect();
    let packed = SnapshotPacker::default().pack_files(ROOT, files).expect("snapshot");
    assert_eq!(
        inline_paths(packed),
        [
            ".forall/verify/mapping.yaml",
            "src/a.rs",
            "src/z.rs",
            "support/data.txt"
        ]
    );
}

#[test]
fn verification_snapshot_selects_project_truth_mapped_sources_and_manifests() {
    let mapping = format!("{ROOT}/.forall/verify/mapping.yaml");
    let cache = format!("{ROOT}/.forall/verify/cache/report.json");
    assert!(forall_entry(ROOT, &mapping, false, true).unwrap());
    assert!(!forall_entry(ROOT, &cache, false, true).unwrap());
    let lib = select_canonical(ROOT, &format!("{ROOT}/src/lib.rs"), &format!("{ROOT}/src/lib.rs"), true)
        .unwrap();
    let cargo = format!("{ROOT}/Cargo.toml");
    assert!(support_entry(ROOT, &cargo, Some((false, true))).unwrap());
    assert!(!support_entry(ROOT, &format!("{ROOT}/package.json"), None).unwrap());
    let selected = path_set(vec![lib, cargo, mapping.clone(), mapping]);
    let files = selected
        .iter()
        .map(|p| file(p.strip_prefix("/work/repo/").unwrap(), "x"))
        .collect();
    let packed = SnapshotPacker::default().pack_files(ROOT, files).unwrap();
    assert_eq!(
        inline_paths(packed),
        [".forall/verify/mapping.yaml", "Cargo.toml", "src/lib.rs"]
    );
}

#[test]
fn verification_snapshot_rejects_secret_paths_from_mapping() {
    let env = format!("{ROOT}/.env");
    let err = select_canonical(ROOT, &env, &env, true).unwrap_err();
    assert!(matches!(err, SnapshotError::Excluded(path) if path == ".env"));
}

#[test]
fn snapshot_rejects_traversal_non_utf8_and_limits() {
    assert!(matches!(
        validate_relative("../outside.txt"),
        Err(SnapshotError::InvalidPath(_))
    ));
    assert!(matches!(
        candidate_path(ROOT, "../outside.txt"),
        Err(SnapshotError::InvalidPath(_))
    ));

    let binary = SnapshotFile {
        path: format!("{ROOT}/binary"),
        metadata: Ok(FileMetadata { is_file: true, len: 2 }),
        content: Some(Ok(vec![0xff, 0xfe])),
    };
    assert!(matches!(
        SnapshotPacker::default().pack_files(ROOT, vec![binary]),
        Err(SnapshotError::NonUtf8(path)) if path == "binary"
    ));

    let large = SnapshotFile {
        path: format!("{ROOT}/large.txt"),
        metadata: Ok(FileMetadata {
            is_file: true,
            len: MAX_FILE_BYTES + 1,
        }),
        content: None,
    };
    assert!(matches!(
        SnapshotPacker::default().pack_files(ROOT, vec![large]),
        Err(SnapshotError::FileTooLarge { path, .. }) if path == "large.txt"
    ));

    let many: Vec<_> = (0..=MAX_SNAPSHOT_FILES)
        .map(|index| file(&format!("files/{index:03}.txt"), "x"))
        .collect();
    assert!(matches!(
        SnapshotPacker::default().pack_files(ROOT, many),
        Err(SnapshotError::TooManyFiles { count, limit }) if count == MAX_SNAPSHOT_FILES + 1 && limit == MAX_SNAPSHOT_FILES
    ));
}

#[test]
fn snapshot_enforces_total_limit() {
    let files: Vec<_> = (0..11)
        .map(|index| SnapshotFile {
            path: format!("{ROOT}/{index}.txt"),
            metadata: Ok(FileMetadata {
                is_file: true,
                len: MAX_FILE_BYTES,
            }),
            content: Some(Ok(vec![b'x'; 1])),
        })
        .collect();
    assert!(matches!(
        SnapshotPacker::default().pack_files(ROOT, files),
        Err(SnapshotError::SnapshotTooLarge { size, .. }) if size == 11 * MAX_FILE_BYTES
    ));
}

#[test]
fn snapshot_rejects_symlinks_without_following_them() {
    let linked = format!("{ROOT}/linked.txt");
    assert!(matches!(
        workspace_entry(ROOT, &linked, true, false),
        Err(SnapshotError::Symlink(path)) if path == "linked.txt"
    ));
    assert!(matches!(
        support_entry(ROOT, &format!("{ROOT}/Cargo.toml"), Some((true, false))),
        Err(SnapshotError::Symlink(path)) if path == "Cargo.toml"
    ));
    assert!(matches!(
        forall_entry(ROOT, &format!("{ROOT}/.forall/x"), true, false),
        Err(SnapshotError::Symlink(path)) if path == ".forall/x"
    ));
}

#[test]
fn github_helper_has_explicit_wire_variant() {
    let source = github_source(
        "owner/repository".to_string(),
        "main".to_string(),
        Some("packages/app".to_string()),
    );
    assert_eq!(
        source,
        VerificationSource::Github {
            repository: "owner/repository".to_string(),
            reference: "main".to_string(),
            subdirectory: Some("packages/app".to_string()),
        }
    );
}

#[test]
fn secrets_and_excluded_components_are_recognised() {
    for secret in [
        "/w/.env",
        "/w/.ENV.local",
        "/w/config/credentials.json",
        "/w/Secrets.json",
        "/w/id_rsa",
        "/w/id_ed25519",
        "/w/cert.PEM",
        "/w/x.key",
        "/w/x.p12",
        "/w/x.pfx",
        "/",
    ] {
        assert!(is_secret_file(secret), "{secret}");
    }
    for plain in ["/w/.envrc", "/w/src/key.rs", "/w/environment.ts"] {
        assert!(!is_secret_file(plain), "{plain}");
    }
    assert!(is_excluded_component("/w", "/w/node_modules/a.js"));
    assert!(is_excluded_component("/w", "/w/src/__pycache__/a.pyc"));
    assert!(!is_excluded_component("/w", "/w/src/a.rs"));
    assert!(!is_excluded_component("/w/target", "/w/target/a.rs"));
    assert!(!is_excluded_component("/other", "/w/target/a.rs"));
}

#[test]
fn paths_on_the_wire_are_relative_and_slash_joined() {
    assert_eq!(portable_relative_path("/w", "/w/src/a.rs").unwrap(), "src/a.rs");
    assert_eq!(portable_relative_path("/w/", "/w//src/./a.rs").unwrap(), "src/a.rs");
    assert!(matches!(
        portable_relative_path("/w", "/v/a.rs"),
        Err(SnapshotError::OutsideRoot(path)) if path == "/v/a.rs"
    ));
    assert_eq!(relative_path("/w", "/w/src/a.rs").unwrap(), "src/a.rs");
    assert_eq!(candidate_path("/w", "src/a.rs").unwrap(), "/w/src/a.rs");
    assert!(matches!(validate_relative(""), Err(SnapshotError::InvalidPath(_))));
    assert!(matches!(validate_relative("/etc/passwd"), Err(SnapshotError::InvalidPath(_))));
    assert!(validate_relative("a/./b").is_ok());
}

#[test]
fn path_set_orders_by_components() {
    let ordered = path_set(vec![
        "/w/a.b".to_string(),
        "/w/a/b".to_string(),
        "/w//a/b".to_string(),
        "/w/B".to_string(),
    ]);
    assert_eq!(ordered, vec!["/w/B", "/w/a/b", "/w/a.b"]);
}

#[test]
fn empty_snapshots_and_unreadable_files_are_refused() {
    assert!(matches!(
        SnapshotPacker::default().pack_files(ROOT, Vec::new()),
        Err(SnapshotError::EmptySnapshot)
    ));
    let dir = SnapshotFile {
        path: format!("{ROOT}/dir"),
        metadata: Ok(FileMetadata { is_file: false, len: 0 }),
        content: None,
    };
    assert!(matches!(
        SnapshotPacker::default().pack_files(ROOT, vec![dir]),
        Err(SnapshotError::NotRegularFile(_))
    ));
    let packer = SnapshotPacker::with_limits(2, 4, 6);
    let packed = packer
        .pack_files(ROOT, vec![file("a", "1234"), file("b", "12")])
        .unwrap();
    assert_eq!(
        packed,
        VerificationSource::Inline {
            files: vec![
                InlineFile { path: "a".into(), content: "1234".into() },
                InlineFile { path: "b".into(), content: "12".into() },
            ]
        }
    );
    assert!(matches!(
        packer.pack_files(ROOT, vec![file("a", "1234"), file("b", "123")]),
        Err(SnapshotError::SnapshotTooLarge { size: 7, limit: 6 })
    ));
    assert_eq!(support_file_names().len(), 17);
}

#[test]
fn verification_snapshot_rejects_symlinked_support_files() {
    // A root manifest is picked up by name, so a link there must not be a
    // way to read a file from outside the workspace.
    let cargo = format!("{ROOT}/Cargo.toml");
    assert!(matches!(
        support_entry(ROOT, &cargo, Some((true, true))),
        Err(SnapshotError::Symlink(path)) if path == "Cargo.toml"
    ));
}

#[test]
fn verification_snapshot_rejects_a_symlinked_forall_directory() {
    // The `.forall` directory is looked at without following links before
    // any walk starts, so a link there is refused.
    let forall = format!("{ROOT}/.forall");
    assert!(matches!(
        support_entry(ROOT, &forall, Some((true, false))),
        Err(SnapshotError::Symlink(path)) if path == ".forall"
    ));
    assert!(!support_entry(ROOT, &forall, Some((false, false))).unwrap());
}

#[test]
fn root_manifests_are_collected_in_order_and_links_refused() {
    let looked_at = |links: &[usize]| {
        let mut metadata: Vec<Result<Option<(bool, bool)>, SnapshotError>> =
            (0..support_file_names().len()).map(|_| Ok(None)).collect();
        metadata[7] = Ok(Some((false, true))); // Cargo.toml
        metadata[0] = Ok(Some((false, true))); // package.json
        metadata[11] = Ok(Some((false, false))); // pom.xml is a directory
        for &index in links {
            metadata[index] = Ok(Some((true, false)));
        }
        metadata
    };
    assert_eq!(
        collect_support_files(ROOT, looked_at(&[])).unwrap(),
        vec![format!("{ROOT}/package.json"), format!("{ROOT}/Cargo.toml")]
    );
    // rust-toolchain and build.gradle are links; the first one is reported.
    assert!(matches!(
        collect_support_files(ROOT, looked_at(&[9, 12])),
        Err(SnapshotError::Symlink(path)) if path == "rust-toolchain"
    ));
    let mut failing = looked_at(&[12]);
    failing[3] = Err(SnapshotError::Walk("unreadable".to_string()));
    assert!(matches!(
        collect_support_files(ROOT, failing),
        Err(SnapshotError::Walk(detail)) if detail == "unreadable"
    ));
}

#[test]
fn a_workspace_root_must_be_a_directory() {
    assert_eq!(canonical_root("/w".to_string(), true).unwrap(), "/w");
    assert!(matches!(
        canonical_root("/w/file".to_string(), false),
        Err(SnapshotError::RootNotDirectory(path)) if path == "/w/file"
    ));
}

#[test]
fn collected_files_are_packed_in_path_order_once_each() {
    let files = vec![
        file("src/z.rs", "z"),
        file(".forall/verify/mapping.yaml", "m"),
        file("src/a.rs", "a"),
        SnapshotFile {
            path: format!("{ROOT}//src/./a.rs"),
            metadata: Ok(FileMetadata { is_file: true, len: 1 }),
            content: Some(Ok(b"b".to_vec())),
        },
    ];
    let packed = SnapshotPacker::default()
        .pack_verification_workspace(ROOT, files)
        .unwrap();
    assert_eq!(
        packed,
        VerificationSource::Inline {
            files: vec![
                InlineFile { path: ".forall/verify/mapping.yaml".into(), content: "m".into() },
                InlineFile { path: "src/a.rs".into(), content: "a".into() },
                InlineFile { path: "src/z.rs".into(), content: "z".into() },
            ]
        }
    );
    assert!(matches!(
        SnapshotPacker::default().pack_verification_workspace(ROOT, Vec::new()),
        Err(SnapshotError::EmptySnapshot)
    ));
}

#[test]
fn mapping_file_fields_are_found_at_any_depth_in_order() {
    let text = |s: &str| YamlNode::Text(s.to_string());
    let code = YamlNode::Mapping(vec![
        (text("file"), text("src/lib.rs")),
        (text("symbols"), YamlNode::Sequence(vec![text("a")])),
    ]);
    let property = YamlNode::Mapping(vec![(text("file"), text(".forall/p.property.ts"))]);
    let requirement = YamlNode::Mapping(vec![
        (text("id"), text("req")),
        (text("code"), code),
        (text("property"), property),
        (text("file"), YamlNode::Other),
        (YamlNode::Other, text("ignored.rs")),
    ]);
    let mapping = YamlNode::Mapping(vec![
        (text("version"), YamlNode::Other),
        (text("requirements"), YamlNode::Sequence(vec![requirement])),
        (text("file"), text("top.rs")),
    ]);
    assert_eq!(
        mapping_file_fields(&mapping),
        vec!["src/lib.rs", ".forall/p.property.ts", "top.rs"]
    );
    assert!(mapping_file_fields(&text("file")).is_empty());
    assert!(is_mapping_delta("mapping.delta.yaml"));
    assert!(!is_mapping_delta("mapping.yaml"));
}
