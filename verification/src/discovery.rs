//! Finding the local packages of a project.
//!
//! A manifest with a `package` table that names the package and gives its
//! version, both as strings, declares a local package. Other manifests, such
//! as that of a workspace without a package of its own, declare none.

use vstd::prelude::*;
use crate::document::{field, Tree, Value};
use crate::error::{
    DocumentId, Fault, FaultView, MaskError, RunFault, RunFaultView, Segment, SegmentView,
};
use crate::manifest::{manifests_view, ParsedManifest};
use crate::package::{
    distinct_names, find_local, lemma_local_index, local_index, packages_view, Package, PackageView,
};

verus! {

/// The local package that `manifest` declares.
pub open spec fn declared_package(manifest: Tree) -> Option<PackageView> {
    match field(manifest, "package"@) {
        Some(package) => match (field(package, "name"@), field(package, "version"@)) {
            (Some(Tree::String(name)), Some(Tree::String(version))) => Some(
                PackageView { name, version },
            ),
            _ => None,
        },
        None => None,
    }
}

/// The local packages that `manifests` declare, in the order of the
/// manifests.
pub open spec fn declared_packages(manifests: Seq<Tree>) -> Seq<PackageView>
    decreases manifests.len(),
{
    if manifests.len() == 0 {
        Seq::empty()
    } else {
        match declared_package(manifests.last()) {
            Some(package) => declared_packages(manifests.drop_last()).push(package),
            None => declared_packages(manifests.drop_last()),
        }
    }
}

/// Whether the manifest at `at` declares a package under a name that a
/// manifest before it has declared.
pub open spec fn repeats_name(manifests: Seq<Tree>, at: int) -> bool {
    &&& 0 <= at < manifests.len()
    &&& declared_package(manifests[at]) is Some
    &&& local_index(
        declared_packages(manifests.take(at)),
        declared_package(manifests[at])->0.name,
    ) is Some
}

/// Whether the manifest at `at` is the first that repeats a name.
pub open spec fn first_repeats_name(manifests: Seq<Tree>, at: int) -> bool {
    &&& repeats_name(manifests, at)
    &&& forall|i: int| 0 <= i < at ==> !repeats_name(manifests, i)
}

/// Whether no manifest repeats the name of a package declared before it.
pub open spec fn names_declared_once(manifests: Seq<Tree>) -> bool {
    forall|i: int| 0 <= i < manifests.len() ==> !repeats_name(manifests, i)
}

/// The place of the first manifest that repeats a name.
pub open spec fn first_repeat(manifests: Seq<Tree>) -> int {
    choose|at: int| first_repeats_name(manifests, at)
}

/// The fault of a manifest that repeats a name: it lies at the name of its
/// package.
pub open spec fn repeated_name() -> FaultView {
    FaultView::at(MaskError::DuplicateLocalPackageName, "name"@).under(
        SegmentView::Key("package"@),
    )
}

/// What discovery answers for `manifests`: the packages they declare, or
/// the first manifest that repeats a name.
pub open spec fn discovered(manifests: Seq<Tree>) -> Result<Seq<PackageView>, RunFaultView> {
    if names_declared_once(manifests) {
        Ok(declared_packages(manifests))
    } else {
        Err(repeated_name().within(DocumentId::Manifest(first_repeat(manifests) as usize)))
    }
}

/// What discovery has answered: the packages found, or the failure.
pub open spec fn found_view(r: Result<Vec<Package>, RunFault>) -> Result<
    Seq<PackageView>,
    RunFaultView,
> {
    match r {
        Ok(found) => Ok(packages_view(found@)),
        Err(failure) => Err(failure@),
    }
}

/// No two manifests are the first to repeat a name.
pub proof fn lemma_first_repeat(manifests: Seq<Tree>, at: int)
    requires
        first_repeats_name(manifests, at),
    ensures
        first_repeat(manifests) == at,
        !names_declared_once(manifests),
{
    let chosen = first_repeat(manifests);
    if chosen < at {
        assert(!repeats_name(manifests, chosen));
    } else if at < chosen {
        assert(!repeats_name(manifests, at));
    }
}

/// Where every name is declared once, no two of the declared packages share
/// a name.
pub proof fn lemma_declared_once(manifests: Seq<Tree>)
    requires
        names_declared_once(manifests),
    ensures
        distinct_names(declared_packages(manifests)),
    decreases manifests.len(),
{
    if manifests.len() > 0 {
        let before = manifests.drop_last();
        let last = manifests.len() - 1;
        assert forall|i: int| 0 <= i < before.len() implies !repeats_name(before, i) by {
            assert(!repeats_name(manifests, i));
            assert(before.take(i) =~= manifests.take(i));
        }
        lemma_declared_once(before);
        assert(manifests.take(last) =~= before);
        assert(!repeats_name(manifests, last));
        match declared_package(manifests.last()) {
            Some(package) => {
                lemma_local_index(declared_packages(before), package.name);
            },
            None => {},
        }
    }
}

/// The local package that `manifest` declares.
fn declared(manifest: &Value) -> (r: Option<Package>)
    ensures
        match r {
            Some(package) => declared_package(manifest@) == Some(package@),
            None => declared_package(manifest@) is None,
        },
{
    match manifest.get("package") {
        Some(package) => match (package.get("name"), package.get("version")) {
            (Some(name), Some(version)) => match (name.as_str(), version.as_str()) {
                (Some(name), Some(version)) => Some(
                    Package { name: name.to_owned(), version: version.to_owned() },
                ),
                _ => None,
            },
            _ => None,
        },
        None => None,
    }
}

/// The local packages that `manifests` declare, in the order of the
/// manifests.
///
/// A manifest without a `package` table, or with one that lacks a name or a
/// version as a string, declares nothing and is passed over. Two manifests
/// that declare the same name are refused: the failure names the second.
pub fn parse_local_crate_names(manifests: &[ParsedManifest]) -> (r: Result<
    Vec<Package>,
    RunFault,
>)
    ensures
        found_view(r) == discovered(manifests_view(manifests@)),
        r is Ok ==> distinct_names(packages_view(r->Ok_0@)),
{
    let ghost all = manifests_view(manifests@);
    let mut found: Vec<Package> = Vec::new();
    let mut i: usize = 0;
    assert(all.take(0) =~= Seq::<Tree>::empty());
    while i < manifests.len()
        invariant
            i <= manifests.len(),
            all == manifests_view(manifests@),
            packages_view(found@) == declared_packages(all.take(i as int)),
            forall|j: int| 0 <= j < i ==> !repeats_name(all, j),
        decreases manifests.len() - i,
    {
        proof {
            assert(all.take(i + 1).drop_last() =~= all.take(i as int));
            assert(all.take(i + 1).last() == all[i as int]);
        }
        match declared(&manifests[i].contents) {
            Some(package) => {
                if find_local(found.as_slice(), package.name.as_str()).is_some() {
                    proof {
                        lemma_first_repeat(all, i as int);
                    }
                    let fault = Fault::at(MaskError::DuplicateLocalPackageName, "name").under(
                        Segment::Key("package".to_owned()),
                    );
                    return Err(fault.within(DocumentId::Manifest(i)));
                }
                let ghost earlier = packages_view(found@);
                found.push(package);
                assert(packages_view(found@) =~= earlier.push(package@));
            },
            None => {},
        }
        i += 1;
    }
    proof {
        assert(all.take(i as int) =~= all);
        lemma_declared_once(all);
    }
    Ok(found)
}

} // verus!
