use version_masking::error::{DocumentId, Fault, MaskError, RunFault, Segment};
use version_masking::error::lift;

fn key(name: &str) -> Segment {
    Segment::Key(name.to_string())
}

#[test]
fn fault_at_a_key_lies_under_that_key() {
    assert_eq!(
        Fault::at(MaskError::MalformedVersion, "version"),
        Fault { error: MaskError::MalformedVersion, field: vec![key("version")] }
    );
}

#[test]
fn fault_seen_from_further_up_has_a_longer_way() {
    let fault = Fault::at(MaskError::MalformedPackageEntry, "name")
        .under(Segment::Index(4))
        .under(key("package"));
    assert_eq!(
        fault,
        Fault {
            error: MaskError::MalformedPackageEntry,
            field: vec![key("package"), Segment::Index(4), key("name")],
        }
    );
    assert_eq!(fault.clone(), fault);
}

#[test]
fn fault_within_a_document_is_a_failure() {
    let fault = Fault::at(MaskError::MalformedVersion, "version").under(key("bar"));
    assert_eq!(
        fault.within(DocumentId::Manifest(2)),
        RunFault {
            error: MaskError::MalformedVersion,
            document: DocumentId::Manifest(2),
            field: vec![key("bar"), key("version")],
        }
    );
    let fault = Fault { error: MaskError::DuplicateLocalPackageName, field: vec![] };
    assert_eq!(
        fault.within(DocumentId::Lock),
        RunFault {
            error: MaskError::DuplicateLocalPackageName,
            document: DocumentId::Lock,
            field: vec![],
        }
    );
}

#[test]
fn lift_leaves_success_alone() {
    assert_eq!(lift(Ok(()), "dependencies"), Ok(()));
    assert_eq!(
        lift(Err(Fault::at(MaskError::MalformedVersion, "version")), "bar"),
        Err(Fault { error: MaskError::MalformedVersion, field: vec![key("bar"), key("version")] })
    );
}

#[test]
fn segments_are_cloned() {
    assert_eq!(key("a").clone(), key("a"));
    assert_eq!(Segment::Index(3).clone(), Segment::Index(3));
    assert_ne!(key("3"), Segment::Index(3));
}
