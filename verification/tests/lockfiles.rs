use version_masking::document::{Scalar, Value};
use version_masking::error::{Fault, MaskError, Segment};
use version_masking::lockfile::mask_local_versions_in_lockfile;
use version_masking::package::Package;

fn text(s: &str) -> Value {
    Value::String(s.to_string())
}

fn table(entries: Vec<(&str, Value)>) -> Value {
    Value::Table(entries.into_iter().map(|(k, v)| (k.to_string(), v)).collect())
}

fn list(items: Vec<&str>) -> Value {
    Value::Array(items.into_iter().map(text).collect())
}

fn entry(name: &str, version: &str, dependencies: Vec<&str>) -> Value {
    table(vec![("name", text(name)), ("version", text(version)), ("dependencies", list(dependencies))])
}

fn lock(entries: Vec<Value>) -> Value {
    table(vec![("version", Value::Scalar(Scalar::Integer(3))), ("package", Value::Array(entries))])
}

fn key(name: &str) -> Segment {
    Segment::Key(name.to_string())
}

fn fault(error: MaskError, field: Vec<Segment>) -> Fault {
    Fault { error, field }
}

fn index(at: usize) -> Segment {
    Segment::Index(at)
}

fn package(name: &str, version: &str) -> Package {
    Package { name: name.to_string(), version: version.to_string() }
}

#[test]
fn local_entry_is_masked() {
    let mut doc = lock(vec![entry("bar", "1.0.3", vec![]), entry("serde", "1.0.3", vec![])]);
    let locals = vec![package("bar", "1.0.3")];
    assert_eq!(mask_local_versions_in_lockfile(&mut doc, &locals), Ok(()));
    assert_eq!(doc, lock(vec![entry("bar", "0.0.1", vec![]), entry("serde", "1.0.3", vec![])]));
}

#[test]
fn references_to_local_packages_are_masked() {
    let mut doc = lock(vec![
        entry("bar", "1.0.3", vec!["serde 1.0.200"]),
        entry("foo", "2.1.0", vec!["bar 1.0.3", "bar 1.0.2", "serde 1.0.200", "barn 1.0.3"]),
        entry("serde", "1.0.200", vec![]),
    ]);
    let locals = vec![package("bar", "1.0.3"), package("foo", "2.1.0")];
    assert_eq!(mask_local_versions_in_lockfile(&mut doc, &locals), Ok(()));
    assert_eq!(
        doc,
        lock(vec![
            entry("bar", "0.0.1", vec!["serde 1.0.200"]),
            entry("foo", "0.0.1", vec!["bar 0.0.1", "bar 1.0.2", "serde 1.0.200", "barn 1.0.3"]),
            entry("serde", "1.0.200", vec![]),
        ])
    );
}

#[test]
fn references_of_remote_entries_stay() {
    let doc = lock(vec![entry("remote", "1.0.0", vec!["bar 1.0.3", "serde 1.0.200"])]);
    let mut masked = doc.clone();
    let locals = vec![package("bar", "1.0.3")];
    assert_eq!(mask_local_versions_in_lockfile(&mut masked, &locals), Ok(()));
    assert_eq!(masked, doc);
}

#[test]
fn entry_is_matched_by_compatibility_and_reference_by_equality() {
    let mut doc = lock(vec![
        entry("bar", "1.4.0", vec!["bar 1.0.3", "bar 1.4.0"]),
        entry("bar", "2.0.0", vec!["bar 1.0.3"]),
    ]);
    let locals = vec![package("bar", "1.0.3")];
    assert_eq!(mask_local_versions_in_lockfile(&mut doc, &locals), Ok(()));
    assert_eq!(
        doc,
        lock(vec![
            entry("bar", "0.0.1", vec!["bar 0.0.1", "bar 1.4.0"]),
            entry("bar", "2.0.0", vec!["bar 1.0.3"]),
        ])
    );
}

#[test]
fn reference_without_version_stays() {
    let mut doc = lock(vec![entry("foo", "2.1.0", vec!["bar", "bar ", " 1.0.3", "bar  1.0.3"])]);
    let locals = vec![package("bar", "1.0.3"), package("foo", "2.1.0")];
    assert_eq!(mask_local_versions_in_lockfile(&mut doc, &locals), Ok(()));
    assert_eq!(doc, lock(vec![entry("foo", "0.0.1", vec!["bar", "bar ", " 1.0.3", "bar  1.0.3"])]));
}

#[test]
fn reference_keeps_what_stands_before_its_first_space() {
    let mut doc = lock(vec![entry("foo", "2.1.0", vec!["odd name 1.0"])]);
    let locals = vec![package("odd name", "1.0"), package("foo", "2.1.0")];
    assert_eq!(mask_local_versions_in_lockfile(&mut doc, &locals), Ok(()));
    assert_eq!(doc, lock(vec![entry("foo", "0.0.1", vec!["odd 0.0.1"])]));
}

#[test]
fn entry_without_name_or_version_is_passed_over() {
    let doc = lock(vec![
        table(vec![("name", text("bar"))]),
        table(vec![("version", text("1.0.3"))]),
        table(vec![]),
        text("bar 1.0.3"),
        Value::Array(vec![text("bar")]),
    ]);
    let mut masked = doc.clone();
    let locals = vec![package("bar", "1.0.3")];
    assert_eq!(mask_local_versions_in_lockfile(&mut masked, &locals), Ok(()));
    assert_eq!(masked, doc);
}

#[test]
fn entry_without_dependencies_is_masked() {
    let mut doc = lock(vec![table(vec![("name", text("bar")), ("version", text("1.0.3"))])]);
    let locals = vec![package("bar", "1.0.3")];
    assert_eq!(mask_local_versions_in_lockfile(&mut doc, &locals), Ok(()));
    assert_eq!(doc, lock(vec![table(vec![("name", text("bar")), ("version", text("0.0.1"))])]));
}

#[test]
fn dependencies_that_are_no_list_stay() {
    let mut doc = lock(vec![table(vec![
        ("name", text("bar")),
        ("version", text("1.0.3")),
        ("dependencies", text("bar 1.0.3")),
    ])]);
    let locals = vec![package("bar", "1.0.3")];
    assert_eq!(mask_local_versions_in_lockfile(&mut doc, &locals), Ok(()));
    assert_eq!(
        doc,
        lock(vec![table(vec![
            ("name", text("bar")),
            ("version", text("0.0.1")),
            ("dependencies", text("bar 1.0.3")),
        ])])
    );
}

#[test]
fn name_that_is_no_string_is_malformed() {
    let doc = lock(vec![
        table(vec![("name", Value::Scalar(Scalar::Integer(7))), ("version", text("1.0.3"))]),
        entry("bar", "1.0.3", vec![]),
    ]);
    let mut masked = doc.clone();
    let locals = vec![package("bar", "1.0.3")];
    assert_eq!(
        mask_local_versions_in_lockfile(&mut masked, &locals),
        Err(fault(MaskError::MalformedPackageEntry, vec![key("package"), index(0), key("name")]))
    );
    assert_eq!(masked, doc);
}

#[test]
fn version_of_a_local_entry_that_is_no_string_is_malformed() {
    let doc = lock(vec![
        entry("bar", "1.0.3", vec![]),
        table(vec![("name", text("bar")), ("version", Value::Scalar(Scalar::Integer(1)))]),
        entry("bar", "1.0.4", vec![]),
    ]);
    let mut masked = doc;
    let locals = vec![package("bar", "1.0.3")];
    assert_eq!(
        mask_local_versions_in_lockfile(&mut masked, &locals),
        Err(fault(MaskError::MalformedPackageEntry, vec![key("package"), index(1), key("version")]))
    );
    assert_eq!(
        masked,
        lock(vec![
            entry("bar", "0.0.1", vec![]),
            table(vec![("name", text("bar")), ("version", Value::Scalar(Scalar::Integer(1)))]),
            entry("bar", "1.0.4", vec![]),
        ])
    );
}

#[test]
fn version_of_a_remote_entry_is_never_read() {
    let doc = lock(vec![table(vec![
        ("name", text("remote")),
        ("version", Value::Scalar(Scalar::Integer(1))),
    ])]);
    let mut masked = doc.clone();
    let locals = vec![package("bar", "1.0.3")];
    assert_eq!(mask_local_versions_in_lockfile(&mut masked, &locals), Ok(()));
    assert_eq!(masked, doc);
}

#[test]
fn version_that_cannot_be_read_is_malformed() {
    let doc = lock(vec![entry("bar", "one", vec![])]);
    let mut masked = doc.clone();
    let locals = vec![package("bar", "1.0.3")];
    assert_eq!(
        mask_local_versions_in_lockfile(&mut masked, &locals),
        Err(fault(MaskError::MalformedVersion, vec![key("package"), index(0), key("version")]))
    );
    assert_eq!(masked, doc);
}

#[test]
fn reference_that_is_no_string_is_malformed() {
    let mut doc = lock(vec![
        table(vec![
            ("name", text("bar")),
            ("version", text("1.0.3")),
            (
                "dependencies",
                Value::Array(vec![
                    text("foo 2.1.0"),
                    Value::Scalar(Scalar::Boolean(false)),
                    text("foo 2.1.0"),
                ]),
            ),
        ]),
        entry("foo", "2.1.0", vec![]),
    ]);
    let locals = vec![package("bar", "1.0.3"), package("foo", "2.1.0")];
    assert_eq!(
        mask_local_versions_in_lockfile(&mut doc, &locals),
        Err(fault(
            MaskError::MalformedPackageEntry,
            vec![key("package"), index(0), key("dependencies"), index(1)],
        ))
    );
    assert_eq!(
        doc,
        lock(vec![
            table(vec![
                ("name", text("bar")),
                ("version", text("0.0.1")),
                (
                    "dependencies",
                    Value::Array(vec![
                        text("foo 0.0.1"),
                        Value::Scalar(Scalar::Boolean(false)),
                        text("foo 2.1.0"),
                    ]),
                ),
            ]),
            entry("foo", "2.1.0", vec![]),
        ])
    );
}

#[test]
fn lock_without_package_list_stays() {
    let locals = vec![package("bar", "1.0.3")];
    let mut empty = table(vec![("version", Value::Scalar(Scalar::Integer(3)))]);
    assert_eq!(mask_local_versions_in_lockfile(&mut empty, &locals), Ok(()));
    assert_eq!(empty, table(vec![("version", Value::Scalar(Scalar::Integer(3)))]));
    let mut odd = table(vec![("package", table(vec![("name", text("bar")), ("version", text("1.0.3"))]))]);
    assert_eq!(mask_local_versions_in_lockfile(&mut odd, &locals), Ok(()));
    assert_eq!(odd, table(vec![("package", table(vec![("name", text("bar")), ("version", text("1.0.3"))]))]));
    let mut plain = text("package");
    assert_eq!(mask_local_versions_in_lockfile(&mut plain, &locals), Ok(()));
    assert_eq!(plain, text("package"));
}

#[test]
fn no_local_packages_mask_nothing() {
    let doc = lock(vec![entry("bar", "1.0.3", vec!["foo 2.1.0"])]);
    let mut masked = doc.clone();
    assert_eq!(mask_local_versions_in_lockfile(&mut masked, &[]), Ok(()));
    assert_eq!(masked, doc);
}

#[test]
fn masking_a_lock_twice_changes_nothing_more() {
    let mut once = lock(vec![
        entry("bar", "1.0.3", vec!["serde 1.0.200", "young 0.3.1"]),
        entry("young", "0.3.1", vec![]),
        entry("foo", "2.1.0", vec!["bar 1.0.3", "bar 1.0.2"]),
        entry("serde", "1.0.200", vec![]),
    ]);
    let locals = vec![package("bar", "1.0.3"), package("foo", "2.1.0"), package("young", "0.3.1")];
    assert_eq!(mask_local_versions_in_lockfile(&mut once, &locals), Ok(()));
    let mut twice = once.clone();
    assert_eq!(mask_local_versions_in_lockfile(&mut twice, &locals), Ok(()));
    assert_eq!(twice, once);
}
