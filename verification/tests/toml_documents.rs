use version_masking::document::{Scalar, Value};
use version_masking::error::{DocumentId, MaskError, RunFault, Segment};
use version_masking::manifest::ParsedManifest;
use version_masking::mask_local_crate_versions;

fn from_toml(value: toml::Value) -> Value {
    match value {
        toml::Value::String(text) => Value::String(text),
        toml::Value::Integer(i) => Value::Scalar(Scalar::Integer(i)),
        toml::Value::Float(x) => Value::Scalar(Scalar::Float(x.to_bits())),
        toml::Value::Boolean(b) => Value::Scalar(Scalar::Boolean(b)),
        toml::Value::Datetime(when) => Value::Scalar(Scalar::Datetime(when.to_string())),
        toml::Value::Array(items) => Value::Array(items.into_iter().map(from_toml).collect()),
        toml::Value::Table(entries) => {
            Value::Table(entries.into_iter().map(|(key, held)| (key, from_toml(held))).collect())
        }
    }
}

fn to_toml(value: Value) -> toml::Value {
    match value {
        Value::String(text) => toml::Value::String(text),
        Value::Scalar(Scalar::Integer(i)) => toml::Value::Integer(i),
        Value::Scalar(Scalar::Float(bits)) => toml::Value::Float(f64::from_bits(bits)),
        Value::Scalar(Scalar::Boolean(b)) => toml::Value::Boolean(b),
        Value::Scalar(Scalar::Datetime(text)) => match text.parse::<toml::value::Datetime>() {
            Ok(when) => toml::Value::Datetime(when),
            Err(_) => panic!("`{}` is no date or time", text),
        },
        Value::Array(items) => toml::Value::Array(items.into_iter().map(to_toml).collect()),
        Value::Table(entries) => {
            let mut converted = toml::Table::new();
            for (key, held) in entries {
                converted.insert(key, to_toml(held));
            }
            toml::Value::Table(converted)
        }
    }
}

fn read(text: &str) -> Value {
    match toml::from_str::<toml::Value>(text) {
        Ok(document) => from_toml(document),
        Err(e) => panic!("no TOML: {}", e),
    }
}

fn write(document: &Value) -> String {
    match toml::to_string(&to_toml(document.clone())) {
        Ok(text) => text,
        Err(e) => panic!("cannot write: {}", e),
    }
}

fn mask(manifests: &[&str], lock: Option<&str>) -> (Vec<String>, Option<String>) {
    let mut set: Vec<ParsedManifest> =
        manifests.iter().map(|text| ParsedManifest { contents: read(text) }).collect();
    let mut lock_file = lock.map(read);
    assert_eq!(mask_local_crate_versions(&mut set, &mut lock_file), Ok(()));
    (set.iter().map(|m| write(&m.contents)).collect(), lock_file.as_ref().map(write))
}

const ROOT: &str = r#"
[workspace]
members = ["app", "bar"]

[workspace.package]
version = "1.4.2"
edition = "2021"

[workspace.dependencies]
anyhow = "1.0.66"
bar = { path = "bar", version = "1.4.2" }
serde = { version = "1.0", features = ["derive"] }
"#;

const BAR: &str = r#"
[package]
name = "bar"
version = "1.4.2"

[dependencies]
serde = "1.0"
"#;

const APP: &str = r#"
[package]
name = "app"
version = "0.3.7"
publish = false

[dependencies]
bar = { path = "../bar", version = "1.4" }
renamed = { package = "bar", path = "../bar", version = "1.0" }
other = { package = "remote", version = "1.4.2" }
serde = { version = "1.0" }
pathonly = { path = "../pathonly" }

[dev-dependencies]
bar = { path = "../bar", version = "2.0" }

[target.'cfg(windows)'.dependencies]
bar = { path = "../bar", version = "*" }
winhttp = "0.4.0"

[target.x86_64-unknown-linux-gnu.build-dependencies]
bar = { path = "../bar", version = "1" }
"#;

const LOCK: &str = r#"
version = 3

[[package]]
name = "app"
version = "0.3.7"
dependencies = [
 "bar 1.4.2",
 "remote",
 "serde 1.0.200",
]

[[package]]
name = "bar"
version = "1.4.2"
dependencies = [
 "serde 1.0.200",
]

[[package]]
name = "remote"
version = "1.4.2"
source = "registry+https://github.com/rust-lang/crates.io-index"

[[package]]
name = "serde"
version = "1.0.200"
source = "registry+https://github.com/rust-lang/crates.io-index"
checksum = "ddc6f9cc94d67c0e21aaf7eda3a010fd3af78ebf6e096aa6e2e13c79749cae4b"
"#;

fn found(document: &Value, path: &[&str]) -> Option<Value> {
    let mut at = document;
    for key in path {
        at = at.get(key)?;
    }
    Some(at.clone())
}

fn text(s: &str) -> Option<Value> {
    Some(Value::String(s.to_string()))
}

#[test]
fn text_of_a_project_is_masked() {
    let mut set = vec![
        ParsedManifest { contents: read(ROOT) },
        ParsedManifest { contents: read(BAR) },
        ParsedManifest { contents: read(APP) },
    ];
    let mut lock_file = Some(read(LOCK));
    let r = mask_local_crate_versions(&mut set, &mut lock_file);
    assert_eq!(
        r,
        Err(RunFault {
            error: MaskError::MalformedVersion,
            document: DocumentId::Manifest(2),
            field: vec![
                Segment::Key("target".to_string()),
                Segment::Key("x86_64-unknown-linux-gnu".to_string()),
                Segment::Key("build-dependencies".to_string()),
                Segment::Key("bar".to_string()),
                Segment::Key("version".to_string()),
            ],
        })
    );
    let root = &set[0].contents;
    assert_eq!(found(root, &["workspace", "package", "version"]), text("0.0.1"));
    assert_eq!(found(root, &["workspace", "package", "edition"]), text("2021"));
    assert_eq!(found(root, &["workspace", "dependencies", "bar", "version"]), text("0.0.1"));
    assert_eq!(found(root, &["workspace", "dependencies", "bar", "path"]), text("bar"));
    assert_eq!(found(root, &["workspace", "dependencies", "serde", "version"]), text("1.0"));
    assert_eq!(found(root, &["workspace", "dependencies", "anyhow"]), text("1.0.66"));
    let bar = &set[1].contents;
    assert_eq!(found(bar, &["package", "version"]), text("0.0.1"));
    assert_eq!(found(bar, &["package", "name"]), text("bar"));
    assert_eq!(found(bar, &["dependencies", "serde"]), text("1.0"));
    let app = &set[2].contents;
    assert_eq!(found(app, &["package", "version"]), text("0.0.1"));
    assert_eq!(found(app, &["dependencies", "bar", "version"]), text("0.0.1"));
    assert_eq!(found(app, &["dependencies", "renamed", "version"]), text("0.0.1"));
    assert_eq!(found(app, &["dependencies", "renamed", "package"]), text("bar"));
    assert_eq!(found(app, &["dependencies", "other", "version"]), text("1.4.2"));
    assert_eq!(found(app, &["dependencies", "serde", "version"]), text("1.0"));
    assert_eq!(found(app, &["dependencies", "pathonly", "version"]), None);
    assert_eq!(found(app, &["dev-dependencies", "bar", "version"]), text("2.0"));
    assert_eq!(found(app, &["target", "cfg(windows)", "dependencies", "bar", "version"]), text("0.0.1"));
    assert_eq!(found(app, &["target", "cfg(windows)", "dependencies", "winhttp"]), text("0.4.0"));
    assert_eq!(
        found(app, &["target", "x86_64-unknown-linux-gnu", "build-dependencies", "bar", "version"]),
        text("1")
    );
    assert_eq!(lock_file, Some(read(LOCK)));
}

fn app_with_readable_requirements() -> String {
    APP.replace("version = \"1\" }", "version = \"1.0\" }")
}

#[test]
fn text_of_a_lock_document_is_masked() {
    let app = app_with_readable_requirements();
    let (_, lock) = mask(&[ROOT, BAR, &app], Some(LOCK));
    let masked = match lock {
        Some(text) => read(&text),
        None => panic!("no lock document"),
    };
    let expected = read(
        &LOCK
            .replace("version = \"0.3.7\"", "version = \"0.0.1\"")
            .replace("name = \"bar\"\nversion = \"1.4.2\"", "name = \"bar\"\nversion = \"0.0.1\"")
            .replace("\"bar 1.4.2\"", "\"bar 0.0.1\""),
    );
    assert_eq!(masked, expected);
    assert_eq!(found(&masked, &["version"]), Some(Value::Scalar(Scalar::Integer(3))));
}

#[test]
fn masked_text_is_masked_into_itself() {
    let app = app_with_readable_requirements();
    let (once, lock_once) = mask(&[ROOT, BAR, &app], Some(LOCK));
    let texts: Vec<&str> = once.iter().map(|text| text.as_str()).collect();
    let (twice, lock_twice) = mask(&texts, lock_once.as_deref());
    assert_eq!(twice, once);
    assert_eq!(lock_twice, lock_once);
}

#[test]
fn text_without_local_packages_is_written_as_it_was_read() {
    let remote = r#"
[dependencies]
serde = { version = "1.0", features = ["derive"] }
ratio = { weight = 1.5, since = 1979-05-27T07:32:00Z, tags = [1, 2, 3], optional = true }
"#;
    let read_once = read(remote);
    let (masked, lock) = mask(&[remote], Some(LOCK));
    assert_eq!(read(&masked[0]), read_once);
    assert_eq!(lock.map(|text| read(&text)), Some(read(LOCK)));
    assert_eq!(
        found(&read_once, &["dependencies", "ratio", "weight"]),
        Some(Value::Scalar(Scalar::Float(1.5f64.to_bits())))
    );
    assert_eq!(
        found(&read_once, &["dependencies", "ratio", "since"]),
        Some(Value::Scalar(Scalar::Datetime("1979-05-27T07:32:00Z".to_string())))
    );
}
