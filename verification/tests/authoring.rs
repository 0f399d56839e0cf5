use forall_toolkit::digest::sha256;
use forall_toolkit::discovery::{
    detect_languages, discover_project_symbols, discover_symbols, discoverable_sources,
    is_skipped_directory, DiscoverSymbolsOutput,
};
use forall_toolkit::errors::{AuthoringError, AuthoringErrorCode, AuthoringResult};
use forall_toolkit::mutation::{
    default_project_files, init_project, plan_writes, preserve_eol, FileMutationAction,
    MutationMode, MutationOptions, MutationPlan, AGENTS_GUIDE_PATH, MAPPING_PATH,
    WORKFLOW_CONFIG_PATH,
};
use forall_toolkit::paths::language_for_path;
use forall_toolkit::requirements::{
    project_status, scaffold_property, upsert_requirements, validate_authoring,
    validate_mapping_uniqueness, PathFacts, ScaffoldPropertyRequest, UpsertRequirementsRequest,
};
use forall_toolkit::root::CanonicalRoot;
use forall_toolkit::scaffold::{contract_files, scaffold_contracts, ContractTarget, ScaffoldContractsRequest};
use forall_toolkit::scan::SourceLanguage;
use forall_toolkit::schema::{CodeRef, Mapping, PropertyRef, Requirement};

fn requirement(id: &str) -> Requirement {
    Requirement {
        id: id.to_string(),
        capability: "math".to_string(),
        requirement: "caller supplied requirement".to_string(),
        verified: false,
        property_tested: false,
        property: None,
        code: None,
        contract: None,
        claimcheck: None,
        scenarios: None,
    }
}

fn apply() -> MutationOptions {
    MutationOptions {
        mode: MutationMode::Apply,
        expected_sha256: Vec::new(),
    }
}

fn apply_for(files: &[(&str, &str)], paths: &[&str]) -> MutationOptions {
    let expected_sha256 = paths
        .iter()
        .map(|path| {
            let content = files
                .iter()
                .find(|(p, _)| p == path)
                .map(|(_, c)| *c)
                .expect("known file");
            (path.to_string(), sha256(content.as_bytes()))
        })
        .collect();
    MutationOptions {
        mode: MutationMode::Apply,
        expected_sha256,
    }
}

fn target(file: &str, symbol: &str, pre: &[&str], post: &[&str]) -> ContractTarget {
    ContractTarget {
        file: file.to_string(),
        symbol: symbol.to_string(),
        preconditions: pre.iter().map(|c| c.to_string()).collect(),
        postconditions: post.iter().map(|c| c.to_string()).collect(),
    }
}

fn read_of(files: &[(&str, &str)], path: &str) -> AuthoringResult<Vec<u8>> {
    match files.iter().find(|(p, _)| *p == path) {
        Some((_, content)) => Ok(content.as_bytes().to_vec()),
        None => Err(AuthoringError {
            code: AuthoringErrorCode::Io,
            message: "cannot read file".to_string(),
            path: Some(path.to_string()),
        }),
    }
}

fn scaffold(
    files: &[(&str, &str)],
    contracts: Vec<ContractTarget>,
    mutation: MutationOptions,
) -> AuthoringResult<MutationPlan> {
    let request = ScaffoldContractsRequest { contracts, mutation };
    let names = contract_files(&request);
    let reads: Vec<_> = names.iter().map(|n| read_of(files, n)).collect();
    let edits = scaffold_contracts(&request, &reads)?;
    let current: Vec<_> = edits
        .iter()
        .map(|(path, _)| read_of(files, path).map(Some))
        .collect();
    plan_writes(&edits, &current, &request.mutation)
}

fn edited(plan: &MutationPlan, path: &str) -> String {
    let bytes = &plan
        .writes
        .iter()
        .find(|(p, _)| p == path)
        .expect("file written")
        .1;
    String::from_utf8(bytes.clone()).unwrap()
}

fn discover(files: &[(&str, &str)]) -> AuthoringResult<DiscoverSymbolsOutput> {
    let names: Vec<String> = files.iter().map(|(p, _)| p.to_string()).collect();
    let contents: Vec<_> = files.iter().map(|(p, _)| read_of(files, p)).collect();
    discover_symbols(&names, &contents)
}

fn absent_defaults() -> Vec<AuthoringResult<Option<Vec<u8>>>> {
    vec![Ok(None), Ok(None), Ok(None)]
}

#[test]
fn initializes_preview_apply_and_status_idempotently() {
    let preview = init_project(&absent_defaults(), &MutationOptions::default()).unwrap();
    assert_eq!(
        preview.output.created,
        vec![MAPPING_PATH, ".forall/workflow/config.yaml", ".forall/AGENTS.md"]
    );
    assert!(preview.writes.is_empty());

    let first = init_project(&absent_defaults(), &apply()).unwrap();
    assert_eq!(
        first.output.created,
        vec![MAPPING_PATH, ".forall/workflow/config.yaml", ".forall/AGENTS.md"]
    );
    assert_eq!(first.writes.len(), 3);

    let written: Vec<_> = first
        .writes
        .iter()
        .map(|(_, bytes)| Ok(Some(bytes.clone())))
        .collect();
    let second = init_project(&written, &apply()).unwrap();
    assert_eq!(
        second.output.unchanged,
        vec![MAPPING_PATH, ".forall/workflow/config.yaml", ".forall/AGENTS.md"]
    );
    assert!(second.writes.is_empty());

    let mapping_bytes = first.writes[0].1.clone();
    let status = project_status(
        Some(Ok((
            mapping_bytes,
            Mapping {
                version: 1,
                requirements: Vec::new(),
            },
        ))),
        Ok(Vec::new()),
    )
    .unwrap();
    assert!(status.initialized);
    assert_eq!(status.requirement_count, 0);
    assert!(status.mapping_sha256.is_some());
}

#[test]
fn init_never_overwrites_existing_project_files() {
    let mapping = "version: 1\nrequirements:\n  - id: existing\n    capability: core\n    requirement: preserve me\n";
    let config = "schema: custom\ncontext: preserve me\n";
    let reads = vec![
        Ok(Some(mapping.as_bytes().to_vec())),
        Ok(Some(config.as_bytes().to_vec())),
        Ok(None),
    ];
    let plan = init_project(&reads, &apply()).unwrap();
    assert_eq!(
        plan.output.unchanged,
        vec![MAPPING_PATH, ".forall/workflow/config.yaml"]
    );
    assert_eq!(plan.writes.len(), 1);
    assert_eq!(plan.writes[0].0, AGENTS_GUIDE_PATH);
    assert!(plan.writes.iter().all(|(p, _)| p != MAPPING_PATH && p != WORKFLOW_CONFIG_PATH));
}

#[test]
fn discovers_three_languages_and_overloads() {
    let files = [
        (
            "src/math.tsx",
            "export function clamp(x: number) {\n  return x;\n}\nexport const double = (x: number) => { return x * 2; };\n",
        ),
        ("src/math.rs", "pub fn clamp(x: i32) -> i32 {\n    x\n}\nfn hidden() {}\n"),
        (
            "src/Math.java",
            "class Math {\n  public int clamp(int x) { return x; }\n  public int clamp(int x, int y) { return x; }\n  private int hidden() { return 0; }\n}\n",
        ),
    ];
    let found = discover(&files).unwrap();
    assert_eq!(found.files.len(), 3);
    assert_eq!(found.files[0].path, "src/Math.java");
    assert_eq!(found.files[0].sha256.len(), 64);
    assert_eq!(found.symbols.len(), 5);
    assert_eq!(found.symbols[0].symbol, "clamp(int x)");
    assert_eq!(found.symbols[1].symbol, "clamp(int x, int y)");
    assert_eq!(found.symbols[2].symbol, "clamp");
    assert_eq!(found.symbols[3].symbol, "clamp");
    assert_eq!(found.symbols[4].symbol, "double");
}

#[test]
fn golden_contract_edits_for_three_languages() {
    let files = [
        ("src/math.ts", "export function clamp(x: number) {\n  return x;\n}\n"),
        ("src/math.rs", "pub fn clamp(x: i32) -> i32 {\n    x\n}\n"),
        ("src/Math.java", "class Math {\n  public int clamp(int x) { return x; }\n}\n"),
    ];
    let plan = scaffold(
        &files,
        vec![
            target("src/math.ts", "clamp", &["Number.isFinite(x)"], &["result === x"]),
            target("src/math.rs", "clamp", &["x >= 0"], &["result == x"]),
            target("src/Math.java", "clamp(int x)", &["x >= 0;"], &[r"\result == x;"]),
        ],
        apply_for(&files, &["src/math.ts", "src/math.rs", "src/Math.java"]),
    )
    .unwrap();
    assert_eq!(
        edited(&plan, "src/math.ts"),
        "export function clamp(x: number) {\n  //@ requires Number.isFinite(x)\n  //@ ensures result === x\n  return x;\n}\n"
    );
    assert_eq!(
        edited(&plan, "src/math.rs"),
        "pub fn clamp(x: i32) -> i32 \n    requires x >= 0,\n    ensures result == x,\n{\n    x\n}\n"
    );
    assert_eq!(
        edited(&plan, "src/Math.java"),
        "class Math {\n  //@ requires x >= 0;\n  //@ ensures \\result == x;\n  public int clamp(int x) { return x; }\n}\n"
    );
}

#[test]
fn contracts_open_the_body_past_braces_in_signatures() {
    let files = [
        (
            "src/pricing.ts",
            "export function total(order: { net: number }, rate: number): number {\n  return order.net * rate;\n}\n",
        ),
        (
            "src/shape.ts",
            "export function shape(x: number): { ok: boolean } {\n  return { ok: x > 0 };\n}\n",
        ),
        (
            "src/apply.rs",
            "pub fn apply<F: Fn(u32) -> u32>(f: F, x: u32) -> u32 {\n    f(x)\n}\n",
        ),
    ];
    let plan = scaffold(
        &files,
        vec![
            target("src/pricing.ts", "total", &["rate > 0"], &[]),
            target("src/shape.ts", "shape", &["x !== 0"], &[]),
            target("src/apply.rs", "apply", &["x > 0"], &[]),
        ],
        apply_for(&files, &["src/pricing.ts", "src/shape.ts", "src/apply.rs"]),
    )
    .unwrap();
    assert_eq!(
        edited(&plan, "src/pricing.ts"),
        "export function total(order: { net: number }, rate: number): number {\n  //@ requires rate > 0\n  return order.net * rate;\n}\n"
    );
    assert_eq!(
        edited(&plan, "src/shape.ts"),
        "export function shape(x: number): { ok: boolean } {\n  //@ requires x !== 0\n  return { ok: x > 0 };\n}\n"
    );
    assert_eq!(
        edited(&plan, "src/apply.rs"),
        "pub fn apply<F: Fn(u32) -> u32>(f: F, x: u32) -> u32 \n    requires x > 0,\n{\n    f(x)\n}\n"
    );
}

#[test]
fn discovered_signatures_keep_nested_parentheses() {
    let files = [(
        "src/lib.rs",
        "pub fn label(map: Vec<u32>, cb: fn(u32) -> u32) -> u32 {\n    0\n}\n",
    )];
    let discovered = discover(&files).unwrap();
    assert_eq!(
        discovered.symbols[0].signature,
        "label(map: Vec<u32>, cb: fn(u32) -> u32)"
    );
}

#[test]
fn contracts_reach_bodies_that_do_not_balance() {
    let files = [(
        "src/brace.ts",
        "export function hasBrace(s: string): boolean {\n  return /{/.test(s);\n}\n",
    )];
    let plan = scaffold(
        &files,
        vec![target("src/brace.ts", "hasBrace", &["s.length > 0"], &[])],
        apply_for(&files, &["src/brace.ts"]),
    )
    .unwrap();
    assert_eq!(
        edited(&plan, "src/brace.ts"),
        "export function hasBrace(s: string): boolean {\n  //@ requires s.length > 0\n  return /{/.test(s);\n}\n"
    );
}

#[test]
fn discovery_handles_deeply_nested_generic_bounds() {
    let files = [(
        "src/parse.rs",
        "pub fn parse<T: IntoIterator<Item = Vec<u8>>>(input: T) -> usize {\n    0\n}\n",
    )];
    let discovered = discover(&files).unwrap();
    assert_eq!(
        discovered
            .symbols
            .iter()
            .map(|symbol| symbol.name.as_str())
            .collect::<Vec<_>>(),
        ["parse"]
    );
}

#[test]
fn discovery_finds_generic_and_annotated_arrow_functions() {
    let files = [
        (
            "src/pick.ts",
            "export function pick<T extends { id: string }>(v: T): string {\n  return v.id;\n}\n",
        ),
        (
            "src/scale.ts",
            "export const scale = (x: number): number => {\n  return x;\n};\n",
        ),
    ];
    let discovered = discover(&files).unwrap();
    let names: Vec<_> = discovered
        .symbols
        .iter()
        .map(|symbol| symbol.name.as_str())
        .collect();
    assert_eq!(names, ["pick", "scale"]);
}

#[test]
fn contract_missing_and_ambiguous_symbols_are_structured_errors() {
    let files = [(
        "src/Math.java",
        "class Math {\n public int f(int x) { return x; }\n public int f(long x) { return 0; }\n}\n",
    )];
    for (symbol, code) in [
        ("missing", AuthoringErrorCode::NotFound),
        ("f", AuthoringErrorCode::AmbiguousSymbol),
    ] {
        let err = scaffold(
            &files,
            vec![target("src/Math.java", symbol, &["true;"], &[])],
            apply_for(&files, &["src/Math.java"]),
        )
        .unwrap_err();
        assert_eq!(err.code, code);
    }
}

#[test]
fn existing_contracts_and_crlf_are_idempotent() {
    let original = "export function clamp(x: number) {\r\n  return x;\r\n}\r\n";
    let files = [("src/math.ts", original)];
    let contracts = || vec![target("src/math.ts", "clamp", &["x >= 0"], &["result >= 0"])];
    let plan = scaffold(&files, contracts(), apply_for(&files, &["src/math.ts"])).unwrap();
    let once = edited(&plan, "src/math.ts");
    assert!(once.contains("\r\n"));
    assert!(once.contains("//@ requires x >= 0\r\n"));

    let files_after = [("src/math.ts", once.as_str())];
    let second = scaffold(
        &files_after,
        contracts(),
        apply_for(&files_after, &["src/math.ts"]),
    )
    .unwrap();
    assert_eq!(second.output.unchanged, vec!["src/math.ts"]);
    assert!(second.writes.is_empty());
}

#[test]
fn identical_clauses_are_scoped_to_each_symbol() {
    let files = [(
        "src/functions.ts",
        "export function first(x: number) {\n  //@ requires x >= 0\n  return x;\n}\n\nexport function second(x: number) {\n  return x;\n}\n",
    )];
    let plan = scaffold(
        &files,
        vec![target("src/functions.ts", "second", &["x >= 0"], &[])],
        apply_for(&files, &["src/functions.ts"]),
    )
    .unwrap();
    let source = edited(&plan, "src/functions.ts");
    assert_eq!(source.matches("//@ requires x >= 0").count(), 2);
}

#[test]
fn expression_arrows_are_not_discovered_as_contract_targets() {
    let files = [(
        "src/functions.ts",
        "export const expression = (x: number) => x + 1;\nexport const block = (x: number) => {\n  return x + 1;\n};\n",
    )];
    let discovered = discover(&files).unwrap();
    assert_eq!(discovered.symbols.len(), 1);
    assert_eq!(discovered.symbols[0].name, "block");
}

#[test]
fn upserts_requirements_and_rejects_request_conflicts() {
    let empty = Mapping {
        version: 1,
        requirements: Vec::new(),
    };
    let merged = upsert_requirements(
        &empty,
        &UpsertRequirementsRequest {
            requirements: vec![requirement("req-1")],
            mutation: apply(),
        },
    )
    .unwrap();
    assert_eq!(merged.requirements.len(), 1);

    let err = upsert_requirements(
        &merged,
        &UpsertRequirementsRequest {
            requirements: vec![requirement("same"), requirement("same")],
            mutation: apply(),
        },
    )
    .unwrap_err();
    assert_eq!(err.code, AuthoringErrorCode::Conflict);
    assert_eq!(err.message, "duplicate requirement id 'same' in request");
}

#[test]
fn stale_hash_blocks_mutation() {
    let files = [("src/a.ts", "export function a() {}\n")];
    let err = scaffold(
        &files,
        vec![target("src/a.ts", "a", &["true"], &[])],
        MutationOptions {
            mode: MutationMode::Apply,
            expected_sha256: vec![("src/a.ts".to_string(), "00".repeat(32))],
        },
    )
    .unwrap_err();
    assert_eq!(err.code, AuthoringErrorCode::StaleContent);
    assert_eq!(err.path.as_deref(), Some("src/a.ts"));
}

#[test]
fn stale_hash_prevents_all_files_in_a_multi_file_mutation() {
    let files = [
        ("src/a.ts", "export function a() {}\n"),
        ("src/z.ts", "export function z() {}\n"),
    ];
    let error = scaffold(
        &files,
        vec![
            target("src/a.ts", "a", &["true"], &[]),
            target("src/z.ts", "z", &["true"], &[]),
        ],
        MutationOptions {
            mode: MutationMode::Apply,
            expected_sha256: vec![
                ("src/a.ts".to_string(), sha256(files[0].1.as_bytes())),
                ("src/z.ts".to_string(), "00".repeat(32)),
            ],
        },
    )
    .unwrap_err();
    assert_eq!(error.code, AuthoringErrorCode::StaleContent);
    assert_eq!(error.path.as_deref(), Some("src/z.ts"));
}

#[test]
fn traversal_absolute_and_symlink_escapes_are_rejected() {
    let root = CanonicalRoot::new("/work/project".to_string(), true).unwrap();
    for path in ["../escape.ts", "/tmp/escape.ts"] {
        let err = root.resolve(path).unwrap_err();
        assert_eq!(err.code, AuthoringErrorCode::UnsafePath);
    }
    assert_eq!(
        root.resolve("../escape.ts").unwrap_err().message,
        "path traversal is not allowed"
    );
    assert_eq!(
        root.resolve("/tmp/escape.ts").unwrap_err().message,
        "path must be a non-empty project-relative path"
    );
    let err = root.confine("link/escape.ts", "/tmp/outside/escape.ts").unwrap_err();
    assert_eq!(err.code, AuthoringErrorCode::UnsafePath);
    assert_eq!(err.message, "path resolves outside the project root");
    assert!(root.confine("src/a.ts", "/work/project/src/a.ts").is_ok());
    assert!(root.confine("x", "/work/projectile/x").is_err());
}

#[test]
fn validates_missing_files_symbols_and_safe_mapping_paths() {
    let mut missing_file = requirement("missing-file");
    missing_file.code = Some(CodeRef {
        file: "src/missing.ts".into(),
        symbols: vec!["nope".into()],
    });
    let mut unsafe_file = requirement("unsafe");
    unsafe_file.code = Some(CodeRef {
        file: "../escape.ts".into(),
        symbols: vec!["escape".into()],
    });
    let mapping = upsert_requirements(
        &Mapping {
            version: 1,
            requirements: Vec::new(),
        },
        &UpsertRequirementsRequest {
            requirements: vec![missing_file, unsafe_file],
            mutation: apply(),
        },
    )
    .unwrap();
    let root = CanonicalRoot::new("/work/project".to_string(), true).unwrap();
    let facts = vec![
        PathFacts {
            path: "src/missing.ts".into(),
            resolved: Ok(false),
            content: None,
        },
        PathFacts {
            path: "../escape.ts".into(),
            resolved: root.resolve("../escape.ts").map(|_| true),
            content: None,
        },
    ];
    let validation = validate_authoring(&mapping, &facts).unwrap();
    assert!(!validation.valid);
    assert_eq!(validation.issues.len(), 2);
    assert_eq!(validation.issues[0].message, "referenced code file is missing");
    assert_eq!(validation.issues[1].message, "path traversal is not allowed");
}

#[test]
fn scaffolds_property_and_merges_mapping_link() {
    let mapping = upsert_requirements(
        &Mapping {
            version: 1,
            requirements: Vec::new(),
        },
        &UpsertRequirementsRequest {
            requirements: vec![requirement("clamp-bounds")],
            mutation: apply(),
        },
    )
    .unwrap();
    let body = "export default async function runPropertyTests() {\n  return { ok: true };\n}\n";
    let (updated, path) = scaffold_property(
        Ok(mapping),
        &ScaffoldPropertyRequest {
            requirement_id: "clamp-bounds".into(),
            body: body.into(),
            symbol: Some("runPropertyTests".into()),
            mutation: apply(),
        },
    )
    .unwrap();
    assert_eq!(path, ".forall/scenarios/clamp-bounds.property.ts");
    let req = &updated.requirements[0];
    assert!(req.property_tested);
    assert_eq!(
        req.property.as_ref().unwrap().file,
        ".forall/scenarios/clamp-bounds.property.ts"
    );
    let plan = plan_writes(
        &vec![(path.clone(), body.as_bytes().to_vec())],
        &vec![Ok(None)],
        &apply(),
    )
    .unwrap();
    assert!(plan.output.created.contains(&path));
    assert_eq!(plan.writes[0].1, body.as_bytes());
}

#[test]
fn property_conflicts_and_missing_body_are_rejected() {
    let mut req = requirement("prop");
    req.property = Some(PropertyRef {
        file: ".forall/scenarios/other.property.ts".into(),
        symbol: None,
    });
    req.property_tested = true;
    let mapping = Mapping {
        version: 1,
        requirements: vec![req],
    };
    let request = ScaffoldPropertyRequest {
        requirement_id: "prop".into(),
        body: "export default () => ({ ok: true });\n".into(),
        symbol: None,
        mutation: apply(),
    };
    assert_eq!(
        scaffold_property(Ok(mapping.clone()), &request).unwrap_err().code,
        AuthoringErrorCode::Conflict
    );
    let mut empty = request;
    empty.body = " ".into();
    assert_eq!(
        scaffold_property(Ok(mapping), &empty).unwrap_err().code,
        AuthoringErrorCode::Malformed
    );
}

#[test]
fn preview_reports_without_writing_and_proposes_content() {
    let writes = vec![("src/a.ts".to_string(), b"new\n".to_vec())];
    let plan = plan_writes(&writes, &vec![Ok(None)], &MutationOptions::default()).unwrap();
    assert!(plan.writes.is_empty());
    assert_eq!(plan.output.created, vec!["src/a.ts"]);
    assert_eq!(plan.output.files[0].action, FileMutationAction::Created);
    assert_eq!(plan.output.files[0].proposed_content.as_deref(), Some("new\n"));
    assert_eq!(plan.output.files[0].before_sha256, None);
    assert_eq!(plan.output.files[0].after_sha256, sha256(b"new\n"));
}

#[test]
fn existing_file_needs_an_expected_hash_to_change() {
    let writes = vec![("src/a.ts".to_string(), b"new\n".to_vec())];
    let current = vec![Ok(Some(b"old\n".to_vec()))];
    let err = plan_writes(&writes, &current, &apply()).unwrap_err();
    assert_eq!(err.code, AuthoringErrorCode::StaleContent);
    assert_eq!(
        err.message,
        "expected SHA-256 is required when updating an existing file"
    );

    let guarded = MutationOptions {
        mode: MutationMode::Apply,
        expected_sha256: vec![("src/a.ts".to_string(), sha256(b"old\n"))],
    };
    let plan = plan_writes(&writes, &current, &guarded).unwrap();
    assert_eq!(plan.output.updated, vec!["src/a.ts"]);
    assert_eq!(plan.output.files[0].before_sha256, Some(sha256(b"old\n")));
    assert_eq!(plan.writes, writes);
    assert_eq!(plan.output.files[0].proposed_content, None);

    let unchanged = plan_writes(&writes, &vec![Ok(Some(b"new\n".to_vec()))], &apply()).unwrap();
    assert_eq!(unchanged.output.unchanged, vec!["src/a.ts"]);
    assert!(unchanged.writes.is_empty());
}

#[test]
fn a_failed_read_is_reported_before_any_write() {
    let writes = vec![
        ("src/a.ts".to_string(), b"a".to_vec()),
        ("src/b.ts".to_string(), b"b".to_vec()),
    ];
    let failure = AuthoringError {
        code: AuthoringErrorCode::Io,
        message: "cannot read file".to_string(),
        path: Some("src/b.ts".to_string()),
    };
    let err = plan_writes(&writes, &vec![Ok(None), Err(failure.clone())], &apply()).unwrap_err();
    assert_eq!(err, failure);
}

#[test]
fn crlf_files_keep_crlf_when_rewritten() {
    assert_eq!(preserve_eol(b"a\r\nb\r\n", "x\ny\n"), b"x\r\ny\r\n".to_vec());
    assert_eq!(preserve_eol(b"a\nb\n", "x\ny\n"), b"x\ny\n".to_vec());
    assert_eq!(preserve_eol(b"a\rb", "x\n"), b"x\n".to_vec());
}

#[test]
fn default_files_hold_the_initial_project() {
    let files = default_project_files();
    assert_eq!(files[0].0, MAPPING_PATH);
    assert_eq!(files[0].1, b"version: 1\nrequirements: []\n");
    assert_eq!(files[1].0, ".forall/workflow/config.yaml");
    assert!(String::from_utf8(files[1].1.clone()).unwrap().starts_with("schema: forall\n"));
    assert_eq!(files[2].0, ".forall/AGENTS.md");
}

#[test]
fn mapping_uniqueness_names_the_first_repetition() {
    let mut a = requirement("a");
    a.code = Some(CodeRef {
        file: "src/x.ts".into(),
        symbols: vec!["f".into()],
    });
    let mut b = requirement("b");
    b.code = Some(CodeRef {
        file: "src/x.ts".into(),
        symbols: vec!["g".into(), "f".into()],
    });
    let err = validate_mapping_uniqueness(&Mapping {
        version: 1,
        requirements: vec![a.clone(), b],
    })
    .unwrap_err();
    assert_eq!(err.code, AuthoringErrorCode::Conflict);
    assert_eq!(err.message, "src/x.ts::f is mapped by both 'a' and 'b'");

    let err = validate_mapping_uniqueness(&Mapping {
        version: 1,
        requirements: vec![a.clone(), a.clone()],
    })
    .unwrap_err();
    assert_eq!(err.message, "duplicate requirement id 'a'");
    assert!(validate_mapping_uniqueness(&Mapping {
        version: 1,
        requirements: vec![a],
    })
    .is_ok());
}

#[test]
fn upsert_replaces_by_id_and_refuses_taken_symbols() {
    let mut a = requirement("a");
    a.code = Some(CodeRef {
        file: "src/x.ts".into(),
        symbols: vec!["f".into()],
    });
    let base = Mapping {
        version: 1,
        requirements: vec![a.clone(), requirement("b")],
    };
    let mut a2 = a.clone();
    a2.requirement = "changed".into();
    let merged = upsert_requirements(
        &base,
        &UpsertRequirementsRequest {
            requirements: vec![a2, requirement("c")],
            mutation: apply(),
        },
    )
    .unwrap();
    assert_eq!(merged.requirements.len(), 3);
    assert_eq!(merged.requirements[0].requirement, "changed");
    assert_eq!(merged.requirements[2].id, "c");

    let mut thief = requirement("thief");
    thief.code = Some(CodeRef {
        file: "src/x.ts".into(),
        symbols: vec!["f".into()],
    });
    let err = upsert_requirements(
        &base,
        &UpsertRequirementsRequest {
            requirements: vec![thief],
            mutation: apply(),
        },
    )
    .unwrap_err();
    assert_eq!(err.message, "src/x.ts::f is already mapped by requirement 'a'");

    let mut invalid = requirement("bad");
    invalid.capability = String::new();
    let err = upsert_requirements(
        &base,
        &UpsertRequirementsRequest {
            requirements: vec![invalid],
            mutation: apply(),
        },
    )
    .unwrap_err();
    assert_eq!(err.code, AuthoringErrorCode::Malformed);
    assert_eq!(
        err.message,
        "requirements are invalid: requirement capability must not be empty"
    );
}

#[test]
fn validation_reports_missing_symbols() {
    let mut req = requirement("r");
    req.code = Some(CodeRef {
        file: "src/a.rs".into(),
        symbols: vec!["present".into(), "absent".into()],
    });
    let mapping = Mapping {
        version: 1,
        requirements: vec![req],
    };
    let facts = vec![PathFacts {
        path: "src/a.rs".into(),
        resolved: Ok(true),
        content: Some(Ok(b"pub fn present() {}\n".to_vec())),
    }];
    let out = validate_authoring(&mapping, &facts).unwrap();
    assert!(!out.valid);
    assert_eq!(out.issues.len(), 1);
    assert_eq!(out.issues[0].message, "referenced symbol 'absent' is missing");
    assert_eq!(out.issues[0].requirement_id.as_deref(), Some("r"));
}

#[test]
fn status_of_an_uninitialized_project_lists_languages() {
    let status = project_status(
        None,
        Ok(vec!["src/b.java".to_string(), "src/a.ts".to_string(), "src/c.ts".to_string()]),
    )
    .unwrap();
    assert!(!status.initialized);
    assert_eq!(status.mapping_path, MAPPING_PATH);
    assert_eq!(
        status.languages,
        vec![SourceLanguage::TypeScript, SourceLanguage::Java]
    );

    let mut req = requirement("r");
    req.code = Some(CodeRef {
        file: "src/a.ts".into(),
        symbols: vec!["f".into(), "g".into()],
    });
    let status = project_status(
        Some(Ok((
            b"x".to_vec(),
            Mapping {
                version: 1,
                requirements: vec![req],
            },
        ))),
        Ok(Vec::new()),
    )
    .unwrap();
    assert_eq!(status.mapped_symbols, vec!["src/a.ts::f", "src/a.ts::g"]);
    assert_eq!(status.mapping_sha256, Some(sha256(b"x")));
}

#[test]
fn source_selection_follows_extensions_and_languages() {
    assert_eq!(language_for_path("src/a.ts"), Some(SourceLanguage::TypeScript));
    assert_eq!(language_for_path("src/a.tsx"), Some(SourceLanguage::TypeScript));
    assert_eq!(language_for_path("src/a.rs"), Some(SourceLanguage::Rust));
    assert_eq!(language_for_path("src/A.java"), Some(SourceLanguage::Java));
    assert_eq!(language_for_path("src/.ts"), None);
    assert_eq!(language_for_path("src/a.py"), None);
    assert_eq!(language_for_path("src/a.ts/"), Some(SourceLanguage::TypeScript));
    assert_eq!(language_for_path(".."), None);
    assert_eq!(
        detect_languages(&vec!["x.rs".into(), "y.txt".into(), "z.rs".into()]),
        vec![SourceLanguage::Rust]
    );
    let kept = discoverable_sources(&vec![
        "src/z.ts".into(),
        "src/a.test.ts".into(),
        "src/types.d.ts".into(),
        "src/a.ts".into(),
        "src/a.ts".into(),
        "src/b.spec.rs".into(),
        "README.md".into(),
    ]);
    assert_eq!(kept, vec!["src/a.ts", "src/z.ts"]);
    assert!(is_skipped_directory("node_modules"));
    assert!(!is_skipped_directory("src"));

    let files = vec!["src/a.rs".to_string(), "src/b.ts".to_string()];
    let contents = vec![
        Ok(b"pub fn a() {}\n".to_vec()),
        Ok(b"export function b() {}\n".to_vec()),
    ];
    let rust_only = discover_project_symbols(&vec![SourceLanguage::Rust], &files, &contents).unwrap();
    assert_eq!(rust_only.symbols.len(), 1);
    assert_eq!(rust_only.symbols[0].name, "a");
    let all = discover_project_symbols(&Vec::new(), &files, &contents).unwrap();
    assert_eq!(all.symbols.len(), 2);
}

#[test]
fn discovery_refuses_non_utf8_and_unknown_extensions() {
    let err = discover_symbols(&vec!["src/a.rs".into()], &vec![Ok(vec![0xff, 0xfe])]).unwrap_err();
    assert_eq!(err.code, AuthoringErrorCode::Malformed);
    assert_eq!(err.message, "source file is not valid UTF-8");
    let err = discover_symbols(&vec!["src/a.py".into()], &vec![Ok(b"def a(): pass\n".to_vec())])
        .unwrap_err();
    assert_eq!(
        err.message,
        "supported source extensions are .ts, .tsx, .rs, and .java"
    );
}

#[test]
fn scaffolding_checks_every_target_before_editing() {
    let files = [("src/a.ts", "export function a() {}\n")];
    let err = scaffold(
        &files,
        vec![
            target("src/a.ts", "a", &["ok"], &[]),
            target("src/a.ts", "a", &["again"], &[]),
        ],
        apply(),
    )
    .unwrap_err();
    assert_eq!(err.code, AuthoringErrorCode::Conflict);
    assert_eq!(err.message, "duplicate contract target 'a'");

    for clause in ["  ", "a\nb", "a\rb"] {
        let err = scaffold(&files, vec![target("src/a.ts", "a", &[clause], &[])], apply())
            .unwrap_err();
        assert_eq!(err.code, AuthoringErrorCode::Malformed);
        assert_eq!(err.message, "contract clauses must be non-empty single lines");
    }

    let err = scaffold(
        &[("src/a.ts", "export function a();\n")],
        vec![target("src/a.ts", "a", &["x"], &[])],
        apply(),
    )
    .unwrap_err();
    assert_eq!(err.message, "symbol 'a' has no writable function body");
}

#[test]
fn digests_are_lowercase_hex_sha256() {
    assert_eq!(
        sha256(b""),
        "e3b0c44298fc1c149afbf4c8996fb92427ae41e4649b934ca495991b7852b855"
    );
    assert_eq!(
        sha256(b"abc"),
        "ba7816bf8f01cfea414140de5dae2223b00361a396177a9cb410ff61f20015ad"
    );
}

#[test]
fn previews_of_binary_content_are_decoded_lossily() {
    let writes = vec![("data.bin".to_string(), vec![b'a', 0xff, b'b'])];
    let plan = plan_writes(&writes, &vec![Ok(None)], &MutationOptions::default()).unwrap();
    assert_eq!(
        plan.output.files[0].proposed_content.as_deref(),
        Some("a\u{fffd}b")
    );
}

#[test]
fn a_second_initialization_changes_nothing() {
    let reads: Vec<AuthoringResult<Option<Vec<u8>>>> = default_project_files()
        .into_iter()
        .map(|(_, content)| Ok(Some(content)))
        .collect();
    let plan = init_project(&reads, &apply()).unwrap();
    assert!(plan.writes.is_empty());
    assert!(plan.output.created.is_empty());
    assert!(plan.output.updated.is_empty());
    assert_eq!(
        plan.output.unchanged,
        vec![MAPPING_PATH, WORKFLOW_CONFIG_PATH, AGENTS_GUIDE_PATH]
    );
}

#[test]
fn options_give_each_path_one_expected_digest() {
    assert!(MutationOptions::default().is_well_formed());
    let twice = MutationOptions {
        mode: MutationMode::Apply,
        expected_sha256: vec![
            ("a.ts".to_string(), "00".repeat(32)),
            ("b.ts".to_string(), "11".repeat(32)),
            ("a.ts".to_string(), "22".repeat(32)),
        ],
    };
    assert!(!twice.is_well_formed());
    let once = MutationOptions {
        mode: MutationMode::Apply,
        expected_sha256: vec![
            ("a.ts".to_string(), "00".repeat(32)),
            ("b.ts".to_string(), "11".repeat(32)),
        ],
    };
    assert!(once.is_well_formed());
}

fn scaffold_twice(path: &str, original: &str, symbol: &str, pre: &[&str], post: &[&str]) -> String {
    let files = [(path, original)];
    let plan = scaffold(
        &files,
        vec![target(path, symbol, pre, post)],
        apply_for(&files, &[path]),
    )
    .unwrap();
    let once = edited(&plan, path);
    let files_after = [(path, once.as_str())];
    let second = scaffold(
        &files_after,
        vec![target(path, symbol, pre, post)],
        apply_for(&files_after, &[path]),
    )
    .unwrap();
    assert_eq!(second.output.unchanged, vec![path.to_string()]);
    assert!(second.writes.is_empty());
    once
}

#[test]
fn rust_contracts_scaffolded_twice_are_unchanged() {
    let once = scaffold_twice(
        "src/math.rs",
        "pub fn half(x: i32) -> i32 {\r\n    x / 2\r\n}\r\n",
        "half",
        &["x >= 0"],
        &["result == x / 2"],
    );
    assert_eq!(
        once,
        "pub fn half(x: i32) -> i32 \r\n    requires x >= 0,\r\n    ensures result == x / 2,\r\n{\r\n    x / 2\r\n}\r\n"
    );
}

#[test]
fn typescript_contracts_after_a_spaced_brace_scaffolded_twice_are_unchanged() {
    let once = scaffold_twice(
        "src/math.ts",
        "export function clamp(x: number) {  \n  //@ requires x >= 0\n  return x;\n}\n",
        "clamp",
        &["x >= 0"],
        &["result >= 0"],
    );
    assert_eq!(
        once,
        "export function clamp(x: number) {\n  //@ ensures result >= 0  \n  //@ requires x >= 0\n  return x;\n}\n"
    );
}

#[test]
fn java_contracts_scaffolded_twice_are_unchanged() {
    let once = scaffold_twice(
        "src/Math.java",
        "class Math {\n  //@ requires x >= 0;\n  public int clamp(int x) { return x; }\n}\n",
        "clamp(int x)",
        &["x >= 0;"],
        &[r"\result == x;"],
    );
    assert_eq!(
        once,
        "class Math {\n  //@ requires x >= 0;\n  //@ ensures \\result == x;\n  public int clamp(int x) { return x; }\n}\n"
    );
}

#[test]
fn rust_clauses_with_line_comments_scaffolded_twice_are_unchanged() {
    let once = scaffold_twice(
        "src/math.rs",
        "pub fn clamp(x: i32) -> i32 {\n    x\n}\n",
        "clamp",
        &["x >= 0 // callers check"],
        &[],
    );
    assert_eq!(
        once,
        "pub fn clamp(x: i32) -> i32 \n    requires x >= 0 // callers check,\n{\n    x\n}\n"
    );
}
