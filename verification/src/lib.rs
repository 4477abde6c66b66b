//! Masking of the versions of local packages in manifests and lock documents.
//!
//! A build cache keyed on the text of a project's manifests and of its lock
//! document should survive a version bump of a package that is built from
//! local source, and should not survive one of a package that comes from
//! elsewhere. This library writes one fixed placeholder in place of every
//! version of a local package, wherever such a version can stand, and leaves
//! the versions of all other packages as they are.
//!
//! A run has three parts. [`discovery`] finds the local packages: those
//! that the manifests themselves declare. [`manifest`] masks each manifest:
//! its own version, and the version of each dependency on a local package
//! that the recorded version of that package covers, by the rule of
//! [`version`]. [`lockfile`] masks the lock document: the entries that stand
//! for local packages, and the references that these hold to each other.
//! [`mask_local_crate_versions`] is the whole run.
//!
//! Documents are held as trees ([`document`]); reading and writing their
//! text is left to the caller. Contracts speak of the views of these trees,
//! and say of every function what it makes of every document, also of one
//! that it cannot read to the end ([`sweep`], [`error`]).
//!
//! Three modules state what follows from the contracts: a second run
//! changes nothing ([`idempotence`]), nothing that belongs to another
//! package is ever altered ([`untouched`]), and one rule decides everywhere
//! what is masked ([`rules`]).

use vstd::prelude::*;

pub mod discovery;
pub mod document;
pub mod error;
pub mod idempotence;
pub mod lockfile;
pub mod manifest;
pub mod package;
pub mod rules;
pub mod stages;
pub mod sweep;
pub mod text;
pub mod untouched;
pub mod version;

use crate::discovery::{discovered, parse_local_crate_names};
use crate::document::{Tree, Value};
use crate::error::{run_fault_of, DocumentId, FaultView, RunFault, RunFaultView};
use crate::lockfile::{mask_local_versions_in_lockfile, masked_lock};
use crate::manifest::{
    manifests_outcome, manifests_view, mask_local_versions_in_manifests, masked_manifests,
    ParsedManifest,
};

verus! {

/// The documents of a project after a run of masking, and what the run
/// reported.
pub struct Run {
    pub manifests: Seq<Tree>,
    pub lock: Option<Tree>,
    pub outcome: Result<(), RunFaultView>,
}

/// What a lock document holds, if there is one.
pub open spec fn lock_view(lock: Option<Value>) -> Option<Tree> {
    match lock {
        Some(document) => Some(document@),
        None => None,
    }
}

/// What a lock document reports after masking.
pub open spec fn lock_outcome(fault: Option<FaultView>) -> Result<(), RunFaultView> {
    match fault {
        Some(fault) => Err(fault.within(DocumentId::Lock)),
        None => Ok(()),
    }
}

/// What a run of masking makes of `manifests` and `lock`.
///
/// Where two manifests declare the same name, nothing is touched and the
/// failure names the second of the first such pair. Otherwise the manifests
/// are masked with the packages that they declare. If that fails, the lock
/// document is not touched; if not, it is masked with the same packages.
pub open spec fn run_of(manifests: Seq<Tree>, lock: Option<Tree>) -> Run {
    match discovered(manifests) {
        Err(failure) => Run { manifests, lock, outcome: Err(failure) },
        Ok(locals) => {
            let masked = masked_manifests(locals, manifests);
            if masked.error is Some {
                Run {
                    manifests: masked.value,
                    lock,
                    outcome: manifests_outcome(locals, manifests),
                }
            } else {
                match lock {
                    Some(document) => Run {
                        manifests: masked.value,
                        lock: Some(masked_lock(locals, document).value),
                        outcome: lock_outcome(masked_lock(locals, document).error),
                    },
                    None => Run { manifests: masked.value, lock, outcome: Ok(()) },
                }
            }
        },
    }
}

/// Masks the versions of the local packages of a project, in its manifests
/// and in its lock document.
///
/// The local packages are those that the manifests declare. Every manifest
/// gets the placeholder as its own version, and every dependency on a local
/// package, in a manifest or in the lock document, gets it where the
/// version recorded for that package covers the one declared. Versions of
/// other packages stay as they are.
///
/// A run that fails names the document at which it stopped. The documents
/// before it are masked, that one is masked as far as work came, and those
/// after it are untouched.
pub fn mask_local_crate_versions(
    manifests: &mut [ParsedManifest],
    lock_file: &mut Option<Value>,
) -> (r: Result<(), RunFault>)
    ensures
        run_of(manifests_view(old(manifests)@), lock_view(*old(lock_file))) == (Run {
            manifests: manifests_view(final(manifests)@),
            lock: lock_view(*final(lock_file)),
            outcome: run_fault_of(r),
        }),
{
    let local_package_names = parse_local_crate_names(manifests)?;
    mask_local_versions_in_manifests(manifests, local_package_names.as_slice())?;
    match lock_file {
        Some(document) => {
            match mask_local_versions_in_lockfile(document, local_package_names.as_slice()) {
                Err(fault) => Err(fault.within(DocumentId::Lock)),
                Ok(()) => Ok(()),
            }
        },
        None => Ok(()),
    }
}

} // verus!
