use version_masking::document::{position_of, Scalar, Value};
use version_masking::error::{Fault, MaskError, Segment};
use version_masking::manifest::local_covers;
use version_masking::package::{find_local, Package};

fn text(s: &str) -> Value {
    Value::String(s.to_string())
}

fn package(name: &str, version: &str) -> Package {
    Package { name: name.to_string(), version: version.to_string() }
}

fn at_version(error: MaskError) -> Fault {
    Fault { error, field: vec![Segment::Key("version".to_string())] }
}

#[test]
fn position_of_names_the_first_entry_under_a_key() {
    let entries = vec![
        ("a".to_string(), text("1")),
        ("b".to_string(), text("2")),
        ("a".to_string(), text("3")),
        ("".to_string(), text("4")),
    ];
    assert_eq!(position_of(&entries, "a"), Some(0));
    assert_eq!(position_of(&entries, "b"), Some(1));
    assert_eq!(position_of(&entries, ""), Some(3));
    assert_eq!(position_of(&entries, "c"), None);
    assert_eq!(position_of(&vec![], "a"), None);
}

#[test]
fn find_local_gives_the_first_package_of_a_name() {
    let locals = vec![package("bar", "1.0.3"), package("foo", "2.1.0"), package("bar", "9.9.9")];
    assert_eq!(find_local(&locals, "bar"), Some(&locals[0]));
    assert_eq!(find_local(&locals, "foo"), Some(&locals[1]));
    assert_eq!(find_local(&locals, "fo"), None);
    assert_eq!(find_local(&locals, "Bar"), None);
    assert_eq!(find_local(&[], "bar"), None);
}

#[test]
fn package_is_cloned() {
    let bar = package("bar", "1.0.3");
    assert_eq!(bar.clone(), bar);
}

#[test]
fn local_covers_asks_the_recorded_version() {
    let locals = vec![package("bar", "1.0.3"), package("young", "0.3.1")];
    assert_eq!(local_covers(&locals, "bar", &text("1.9")), Ok(true));
    assert_eq!(local_covers(&locals, "bar", &text("2.0")), Ok(false));
    assert_eq!(local_covers(&locals, "young", &text("0.3")), Ok(true));
    assert_eq!(local_covers(&locals, "young", &text("0.4")), Ok(false));
    assert_eq!(local_covers(&locals, "young", &text("*")), Ok(true));
}

#[test]
fn local_covers_passes_over_other_packages() {
    let locals = vec![package("bar", "1.0.3")];
    assert_eq!(local_covers(&locals, "serde", &text("1.0")), Ok(false));
    assert_eq!(local_covers(&locals, "serde", &text("no version")), Ok(false));
    assert_eq!(local_covers(&locals, "serde", &Value::Scalar(Scalar::Integer(1))), Ok(false));
    assert_eq!(local_covers(&[], "bar", &text("1.0")), Ok(false));
}

#[test]
fn local_covers_reports_what_it_cannot_read() {
    let locals = vec![package("bar", "1.0.3"), package("odd", "one")];
    assert_eq!(
        local_covers(&locals, "bar", &text("1")),
        Err(at_version(MaskError::MalformedVersion))
    );
    assert_eq!(
        local_covers(&locals, "odd", &text("1.0")),
        Err(at_version(MaskError::MalformedVersion))
    );
    assert_eq!(local_covers(&locals, "odd", &text("*")), Ok(true));
    assert_eq!(
        local_covers(&locals, "bar", &Value::Scalar(Scalar::Boolean(true))),
        Err(at_version(MaskError::MalformedPackageEntry))
    );
    assert_eq!(
        local_covers(&locals, "bar", &Value::Array(vec![text("1.0")])),
        Err(at_version(MaskError::MalformedPackageEntry))
    );
}
