use version_masking::discovery::parse_local_crate_names;
use version_masking::document::{Scalar, Value};
use version_masking::error::{DocumentId, MaskError, RunFault, Segment};
use version_masking::manifest::ParsedManifest;
use version_masking::mask_local_crate_versions;
use version_masking::package::Package;

fn text(s: &str) -> Value {
    Value::String(s.to_string())
}

fn table(entries: Vec<(&str, Value)>) -> Value {
    Value::Table(entries.into_iter().map(|(k, v)| (k.to_string(), v)).collect())
}

fn list(items: Vec<&str>) -> Value {
    Value::Array(items.into_iter().map(text).collect())
}

fn dependency(version: &str) -> Value {
    table(vec![("version", text(version))])
}

fn manifest(name: &str, version: &str, dependencies: Vec<(&str, Value)>) -> ParsedManifest {
    ParsedManifest {
        contents: table(vec![
            ("package", table(vec![("name", text(name)), ("version", text(version))])),
            ("dependencies", table(dependencies)),
        ]),
    }
}

fn entry(name: &str, version: &str, dependencies: Vec<&str>) -> Value {
    table(vec![("name", text(name)), ("version", text(version)), ("dependencies", list(dependencies))])
}

fn lock(entries: Vec<Value>) -> Value {
    table(vec![("version", Value::Scalar(Scalar::Integer(3))), ("package", Value::Array(entries))])
}

fn key(name: &str) -> Segment {
    Segment::Key(name.to_string())
}

fn package(name: &str, version: &str) -> Package {
    Package { name: name.to_string(), version: version.to_string() }
}

fn workspace_root() -> ParsedManifest {
    ParsedManifest {
        contents: table(vec![(
            "workspace",
            table(vec![
                ("members", list(vec!["app", "bar"])),
                ("package", table(vec![("version", text("1.0.3"))])),
                (
                    "dependencies",
                    table(vec![
                        ("bar", table(vec![("path", text("bar")), ("version", text("1.0.3"))])),
                        ("serde", text("1.0.200")),
                    ]),
                ),
            ]),
        )]),
    }
}

#[test]
fn local_packages_are_found_in_the_order_of_the_manifests() {
    let set = vec![
        workspace_root(),
        manifest("bar", "1.0.3", vec![]),
        ParsedManifest { contents: table(vec![("package", table(vec![("name", text("nameless"))]))]) },
        ParsedManifest { contents: table(vec![("package", table(vec![("version", text("1.0.0"))]))]) },
        ParsedManifest {
            contents: table(vec![(
                "package",
                table(vec![
                    ("name", text("inherits")),
                    ("version", table(vec![("workspace", Value::Scalar(Scalar::Boolean(true)))])),
                ]),
            )]),
        },
        ParsedManifest {
            contents: table(vec![(
                "package",
                table(vec![("name", Value::Scalar(Scalar::Integer(1))), ("version", text("1.0.0"))]),
            )]),
        },
        ParsedManifest { contents: table(vec![("package", text("app"))]) },
        ParsedManifest { contents: text("app") },
        manifest("app", "5.0.0", vec![]),
    ];
    assert_eq!(
        parse_local_crate_names(&set),
        Ok(vec![package("bar", "1.0.3"), package("app", "5.0.0")])
    );
}

#[test]
fn no_manifests_declare_no_packages() {
    assert_eq!(parse_local_crate_names(&[]), Ok(vec![]));
}

#[test]
fn second_manifest_with_a_name_is_refused() {
    let set = vec![
        manifest("bar", "1.0.3", vec![]),
        manifest("app", "5.0.0", vec![]),
        workspace_root(),
        manifest("bar", "2.0.0", vec![]),
        manifest("app", "5.0.0", vec![]),
    ];
    assert_eq!(
        parse_local_crate_names(&set),
        Err(RunFault {
            error: MaskError::DuplicateLocalPackageName,
            document: DocumentId::Manifest(3),
            field: vec![key("package"), key("name")],
        })
    );
}

#[test]
fn run_masks_manifests_and_lock() {
    let mut set = vec![
        workspace_root(),
        manifest("bar", "1.0.3", vec![("serde", dependency("1.0"))]),
        manifest(
            "app",
            "5.0.0",
            vec![
                ("bar", dependency("1.0")),
                ("renamed", table(vec![("package", text("bar")), ("version", text("1"))])),
                ("serde", dependency("1.0")),
            ],
        ),
    ];
    let mut lock_file = Some(lock(vec![
        entry("app", "5.0.0", vec!["bar 1.0.3", "serde 1.0.200"]),
        entry("bar", "1.0.3", vec!["serde 1.0.200"]),
        entry("serde", "1.0.200", vec![]),
    ]));
    assert_eq!(
        mask_local_crate_versions(&mut set, &mut lock_file),
        Err(RunFault {
            error: MaskError::MalformedVersion,
            document: DocumentId::Manifest(2),
            field: vec![key("dependencies"), key("renamed"), key("version")],
        })
    );
    let mut set = vec![
        workspace_root(),
        manifest("bar", "1.0.3", vec![("serde", dependency("1.0"))]),
        manifest(
            "app",
            "5.0.0",
            vec![
                ("bar", dependency("1.0")),
                ("renamed", table(vec![("package", text("bar")), ("version", text("1.2"))])),
                ("serde", dependency("1.0")),
            ],
        ),
    ];
    assert_eq!(mask_local_crate_versions(&mut set, &mut lock_file), Ok(()));
    assert_eq!(
        set[0].contents,
        table(vec![(
            "workspace",
            table(vec![
                ("members", list(vec!["app", "bar"])),
                ("package", table(vec![("version", text("0.0.1"))])),
                (
                    "dependencies",
                    table(vec![
                        ("bar", table(vec![("path", text("bar")), ("version", text("0.0.1"))])),
                        ("serde", text("1.0.200")),
                    ]),
                ),
            ]),
        )])
    );
    assert_eq!(set[1], manifest("bar", "0.0.1", vec![("serde", dependency("1.0"))]));
    assert_eq!(
        set[2],
        manifest(
            "app",
            "0.0.1",
            vec![
                ("bar", dependency("0.0.1")),
                ("renamed", table(vec![("package", text("bar")), ("version", text("0.0.1"))])),
                ("serde", dependency("1.0")),
            ],
        )
    );
    assert_eq!(
        lock_file,
        Some(lock(vec![
            entry("app", "0.0.1", vec!["bar 0.0.1", "serde 1.0.200"]),
            entry("bar", "0.0.1", vec!["serde 1.0.200"]),
            entry("serde", "1.0.200", vec![]),
        ]))
    );
}

#[test]
fn run_without_lock_masks_the_manifests() {
    let mut set = vec![manifest("bar", "1.0.3", vec![]), manifest("app", "5.0.0", vec![("bar", dependency("1"))])];
    let mut lock_file = None;
    assert_eq!(
        mask_local_crate_versions(&mut set, &mut lock_file),
        Err(RunFault {
            error: MaskError::MalformedVersion,
            document: DocumentId::Manifest(1),
            field: vec![key("dependencies"), key("bar"), key("version")],
        })
    );
    assert_eq!(set[0], manifest("bar", "0.0.1", vec![]));
    assert_eq!(set[1], manifest("app", "0.0.1", vec![("bar", dependency("1"))]));
    assert_eq!(lock_file, None);
    let mut set = vec![manifest("bar", "1.0.3", vec![]), manifest("app", "5.0.0", vec![("bar", dependency("1.0"))])];
    assert_eq!(mask_local_crate_versions(&mut set, &mut lock_file), Ok(()));
    assert_eq!(set[0], manifest("bar", "0.0.1", vec![]));
    assert_eq!(set[1], manifest("app", "0.0.1", vec![("bar", dependency("0.0.1"))]));
    assert_eq!(lock_file, None);
}

#[test]
fn run_on_nothing_succeeds() {
    let mut set: Vec<ParsedManifest> = vec![];
    let mut lock_file = None;
    assert_eq!(mask_local_crate_versions(&mut set, &mut lock_file), Ok(()));
    assert!(set.is_empty());
    assert_eq!(lock_file, None);
}

#[test]
fn run_on_two_packages_with_one_name_touches_nothing() {
    let first = manifest("bar", "1.0.3", vec![("bar", dependency("1.0"))]);
    let second = manifest("bar", "1.0.4", vec![]);
    let mut set = vec![first.clone(), second.clone()];
    let locked = lock(vec![entry("bar", "1.0.3", vec![])]);
    let mut lock_file = Some(locked.clone());
    assert_eq!(
        mask_local_crate_versions(&mut set, &mut lock_file),
        Err(RunFault {
            error: MaskError::DuplicateLocalPackageName,
            document: DocumentId::Manifest(1),
            field: vec![key("package"), key("name")],
        })
    );
    assert_eq!(set, vec![first, second]);
    assert_eq!(lock_file, Some(locked));
}

#[test]
fn run_that_fails_on_a_manifest_leaves_the_lock() {
    let mut set = vec![
        manifest("bar", "1.0.3", vec![]),
        manifest("app", "5.0.0", vec![("bar", table(vec![("version", list(vec!["1.0"]))]))]),
        manifest("late", "0.1.0", vec![("bar", dependency("1.0"))]),
    ];
    let locked = lock(vec![entry("bar", "1.0.3", vec![])]);
    let mut lock_file = Some(locked.clone());
    assert_eq!(
        mask_local_crate_versions(&mut set, &mut lock_file),
        Err(RunFault {
            error: MaskError::MalformedPackageEntry,
            document: DocumentId::Manifest(1),
            field: vec![key("dependencies"), key("bar"), key("version")],
        })
    );
    assert_eq!(set[0], manifest("bar", "0.0.1", vec![]));
    assert_eq!(
        set[1],
        manifest("app", "0.0.1", vec![("bar", table(vec![("version", list(vec!["1.0"]))]))])
    );
    assert_eq!(set[2], manifest("late", "0.1.0", vec![("bar", dependency("1.0"))]));
    assert_eq!(lock_file, Some(locked));
}

#[test]
fn run_that_fails_on_the_lock_names_it() {
    let mut set = vec![manifest("bar", "1.0.3", vec![])];
    let mut lock_file = Some(lock(vec![entry("bar", "1.x", vec![])]));
    assert_eq!(
        mask_local_crate_versions(&mut set, &mut lock_file),
        Err(RunFault {
            error: MaskError::MalformedVersion,
            document: DocumentId::Lock,
            field: vec![key("package"), Segment::Index(0), key("version")],
        })
    );
    assert_eq!(set[0], manifest("bar", "0.0.1", vec![]));
    assert_eq!(lock_file, Some(lock(vec![entry("bar", "1.x", vec![])])));
}

#[test]
fn second_run_changes_nothing() {
    let mut set = vec![
        workspace_root(),
        manifest("bar", "1.0.3", vec![("serde", dependency("1.0"))]),
        manifest(
            "app",
            "5.0.0",
            vec![("bar", dependency("1.0")), ("other", dependency("2.0")), ("serde", dependency("*"))],
        ),
    ];
    let mut lock_file = Some(lock(vec![
        entry("app", "5.0.0", vec!["bar 1.0.3", "serde 1.0.200"]),
        entry("bar", "1.0.3", vec!["serde 1.0.200"]),
        entry("bar", "2.0.0", vec!["bar 1.0.3"]),
        entry("serde", "1.0.200", vec![]),
    ]));
    assert_eq!(mask_local_crate_versions(&mut set, &mut lock_file), Ok(()));
    let once = set.clone();
    let locked_once = lock_file.clone();
    assert_eq!(mask_local_crate_versions(&mut set, &mut lock_file), Ok(()));
    assert_eq!(set, once);
    assert_eq!(lock_file, locked_once);
}

#[test]
fn second_run_masks_what_only_the_placeholder_covers() {
    let mut set = vec![
        manifest("bar", "1.0.3", vec![]),
        manifest("app", "5.0.0", vec![("bar", dependency("0.0.5"))]),
    ];
    let mut lock_file = None;
    assert_eq!(mask_local_crate_versions(&mut set, &mut lock_file), Ok(()));
    assert_eq!(set[1], manifest("app", "0.0.1", vec![("bar", dependency("0.0.5"))]));
    assert_eq!(mask_local_crate_versions(&mut set, &mut lock_file), Ok(()));
    assert_eq!(set[1], manifest("app", "0.0.1", vec![("bar", dependency("0.0.1"))]));
}
