//! Masking the versions of local packages in manifests.
//!
//! A manifest declares its own version, and it names other packages with a
//! version in its dependency tables: at the top level, under each target, and
//! in the workspace table.

use vstd::prelude::*;
use crate::document::{entries_view, field, lemma_with_field, with_field, Tree, Value};
use crate::error::{
    fault_of, lift, reading_of, run_fault_of, DocumentId, Fault, FaultView, MaskError, RunFault,
    RunFaultView, Segment,
};
use crate::package::{find_local, packages_view, recorded_version, Package, PackageView};
use crate::sweep::{done, first_failure, in_field, lemma_first_failure, sweep, sweep_table, Step};
use crate::version::{covers, covers_spec};

verus! {

/// A manifest as it was read.
#[derive(Debug, PartialEq, Eq)]
pub struct ParsedManifest {
    pub contents: Value,
}

impl View for ParsedManifest {
    type V = Tree;

    open spec fn view(&self) -> Tree {
        self.contents@
    }
}

impl Clone for ParsedManifest {
    /// A second manifest with the same contents.
    fn clone(&self) -> (r: ParsedManifest)
        ensures
            r@ == self@,
    {
        ParsedManifest { contents: self.contents.clone() }
    }
}

/// The contents of `manifests`, in order.
pub open spec fn manifests_view(manifests: Seq<ParsedManifest>) -> Seq<Tree> {
    Seq::new(manifests.len(), |i: int| manifests[i]@)
}

/// The version written in place of every version of a local package.
pub const CONST_VERSION: &'static str = "0.0.1";

/// The placeholder as a value of a document.
pub open spec fn placeholder() -> Tree {
    Tree::String(CONST_VERSION@)
}

/// Whether an entry declared with `version` names a local package called
/// `name` in a version that the recorded one covers.
///
/// A version that is no string or cannot be read is a fault at `version`.
pub open spec fn named_verdict(locals: Seq<PackageView>, name: Seq<char>, version: Tree) -> Result<
    bool,
    FaultView,
> {
    match recorded_version(locals, name) {
        None => Ok(false),
        Some(recorded) => match version {
            Tree::String(declared) => match covers_spec(recorded, declared) {
                Ok(covered) => Ok(covered),
                Err(error) => Err(FaultView::at(error, "version"@)),
            },
            _ => Err(FaultView::at(MaskError::MalformedPackageEntry, "version"@)),
        },
    }
}

/// Whether the dependency declared under `key` as `dependency` is to be
/// masked.
///
/// Without a `version` there is nothing to mask. The package meant is the one
/// named by `package`, and by `key` only where there is no such field. A
/// name that is no string is a fault at `package`.
pub open spec fn dependency_verdict(
    locals: Seq<PackageView>,
    key: Seq<char>,
    dependency: Tree,
) -> Result<bool, FaultView> {
    match field(dependency, "version"@) {
        None => Ok(false),
        Some(version) => match field(dependency, "package"@) {
            None => named_verdict(locals, key, version),
            Some(Tree::String(name)) => named_verdict(locals, name, version),
            Some(_) => Err(FaultView::at(MaskError::MalformedPackageEntry, "package"@)),
        },
    }
}

/// The entry of a dependency table after masking.
pub open spec fn masked_dependency(locals: Seq<PackageView>, entry: (Seq<char>, Tree)) -> Step<
    (Seq<char>, Tree),
> {
    match dependency_verdict(locals, entry.0, entry.1) {
        Ok(true) => done((entry.0, with_field(entry.1, "version"@, placeholder()))),
        Ok(false) => done(entry),
        Err(fault) => Step { value: entry, error: Some(fault) },
    }
}

/// A dependency table after masking; what is no table stays as it is.
pub open spec fn masked_dependency_table(locals: Seq<PackageView>, table: Tree) -> Step<Tree> {
    match table {
        Tree::Table(entries) => sweep_table(
            entries,
            |entry: (Seq<char>, Tree)| masked_dependency(locals, entry),
        ),
        _ => done(table),
    }
}

/// `tree` after masking the dependency table that it holds under `name`.
pub open spec fn masked_table(locals: Seq<PackageView>, tree: Tree, name: Seq<char>) -> Step<Tree> {
    in_field(tree, name, |table: Tree| masked_dependency_table(locals, table))
}

/// `tree` after masking its three dependency tables: `dependencies`,
/// `dev-dependencies` and `build-dependencies`, in this order.
pub open spec fn masked_tables(locals: Seq<PackageView>, tree: Tree) -> Step<Tree> {
    masked_table(locals, tree, "dependencies"@).and_then(
        |tree: Tree| masked_table(locals, tree, "dev-dependencies"@),
    ).and_then(|tree: Tree| masked_table(locals, tree, "build-dependencies"@))
}

/// The entry of the `target` table after masking the dependency tables of
/// that target.
pub open spec fn masked_target(locals: Seq<PackageView>, entry: (Seq<char>, Tree)) -> Step<
    (Seq<char>, Tree),
> {
    Step {
        value: (entry.0, masked_tables(locals, entry.1).value),
        error: masked_tables(locals, entry.1).error,
    }
}

/// The `target` table after masking; what is no table stays as it is.
pub open spec fn masked_target_table(locals: Seq<PackageView>, targets: Tree) -> Step<Tree> {
    match targets {
        Tree::Table(entries) => sweep_table(
            entries,
            |entry: (Seq<char>, Tree)| masked_target(locals, entry),
        ),
        _ => done(targets),
    }
}

/// `tree` with the placeholder in place of what it holds under `version`.
pub open spec fn with_version_masked(tree: Tree) -> Tree {
    with_field(tree, "version"@, placeholder())
}

/// `tree` with the placeholder as the version of its `package` table, where
/// that holds one as a string: the version that a manifest declares as its
/// own, or a workspace as that of its members.
pub open spec fn with_own_version_masked(tree: Tree) -> Tree {
    match field(tree, "package"@) {
        Some(package) => match field(package, "version"@) {
            Some(Tree::String(_)) => with_field(tree, "package"@, with_version_masked(package)),
            _ => tree,
        },
        None => tree,
    }
}

/// The `workspace` table after masking: the version of its `package` table
/// and its `dependencies` table.
pub open spec fn masked_workspace(locals: Seq<PackageView>, workspace: Tree) -> Step<Tree> {
    masked_table(locals, with_own_version_masked(workspace), "dependencies"@)
}

/// A manifest after masking the versions that its dependencies declare: in
/// its own dependency tables, then in those of each target, then in the
/// workspace table.
pub open spec fn masked_dependency_versions(locals: Seq<PackageView>, manifest: Tree) -> Step<
    Tree,
> {
    masked_tables(locals, manifest).and_then(
        |tree: Tree|
            in_field(tree, "target"@, |targets: Tree| masked_target_table(locals, targets)),
    ).and_then(
        |tree: Tree|
            in_field(
                tree,
                "workspace"@,
                |workspace: Tree| masked_workspace(locals, workspace),
            ),
    )
}

/// A manifest after masking: its own version, then the versions that its
/// dependencies declare.
pub open spec fn masked_manifest(locals: Seq<PackageView>, manifest: Tree) -> Step<Tree> {
    masked_dependency_versions(locals, with_own_version_masked(manifest))
}

/// The manifests of a set after masking each with the same local packages.
pub open spec fn masked_manifests(locals: Seq<PackageView>, manifests: Seq<Tree>) -> Step<
    Seq<Tree>,
> {
    sweep(manifests, |manifest: Tree| masked_manifest(locals, manifest))
}

/// The place of the first manifest on which masking fails, or the number of
/// manifests.
pub open spec fn failing_manifest(locals: Seq<PackageView>, manifests: Seq<Tree>) -> int {
    first_failure(manifests, |manifest: Tree| masked_manifest(locals, manifest))
}

/// What masking a set of manifests reports: nothing, or the error of the
/// first manifest on which it fails, with the place of that manifest.
pub open spec fn manifests_outcome(locals: Seq<PackageView>, manifests: Seq<Tree>) -> Result<
    (),
    RunFaultView,
> {
    match masked_manifests(locals, manifests).error {
        Some(fault) => Err(
            fault.within(DocumentId::Manifest(failing_manifest(locals, manifests) as usize)),
        ),
        None => Ok(()),
    }
}

/// The placeholder as a value.
pub fn placeholder_value() -> (r: Value)
    ensures
        r@ == placeholder(),
{
    Value::String(CONST_VERSION.to_owned())
}

/// Whether an entry declared with `version` names a local package called
/// `name` in a version that the recorded one covers.
pub fn local_covers(locals: &[Package], name: &str, version: &Value) -> (r: Result<bool, Fault>)
    ensures
        reading_of(r) == named_verdict(packages_view(locals@), name@, version@),
{
    match find_local(locals, name) {
        None => Ok(false),
        Some(package) => match version.as_str() {
            Some(declared) => match covers(package.version.as_str(), declared) {
                Ok(covered) => Ok(covered),
                Err(error) => Err(Fault::at(error, "version")),
            },
            None => Err(Fault::at(MaskError::MalformedPackageEntry, "version")),
        },
    }
}

fn dependency_is_local(locals: &[Package], key: &str, dependency: &Value) -> (r: Result<
    bool,
    Fault,
>)
    ensures
        reading_of(r) == dependency_verdict(packages_view(locals@), key@, dependency@),
{
    match dependency.get("version") {
        None => Ok(false),
        Some(version) => match dependency.get("package") {
            None => local_covers(locals, key, version),
            Some(package) => match package.as_str() {
                Some(name) => local_covers(locals, name, version),
                None => Err(Fault::at(MaskError::MalformedPackageEntry, "package")),
            },
        },
    }
}

/// Masks the entries of one dependency table.
fn mask_dependencies(locals: &[Package], entries: &mut Vec<(String, Value)>) -> (r: Result<
    (),
    Fault,
>)
    ensures
        Tree::Table(entries_view(final(entries)@)) == masked_dependency_table(
            packages_view(locals@),
            Tree::Table(entries_view(old(entries)@)),
        ).value,
        fault_of(r) == masked_dependency_table(
            packages_view(locals@),
            Tree::Table(entries_view(old(entries)@)),
        ).error,
{
    let ghost before = entries_view(entries@);
    let ghost known = packages_view(locals@);
    let ghost step = |entry: (Seq<char>, Tree)| masked_dependency(known, entry);
    let n = entries.len();
    let mut i: usize = 0;
    while i < n
        invariant
            i <= n,
            entries.len() == n,
            before.len() == n,
            before == entries_view(old(entries)@),
            known == packages_view(locals@),
            step == |entry: (Seq<char>, Tree)| masked_dependency(known, entry),
            forall|j: int| 0 <= j < i ==> (#[trigger] step(before[j])).error is None,
            forall|j: int| 0 <= j < i ==> entries_view(entries@)[j] == step(before[j]).value,
            forall|j: int| i <= j < n ==> entries_view(entries@)[j] == before[j],
        decreases n - i,
    {
        let ghost current = entries_view(entries@);
        match dependency_is_local(locals, entries[i].0.as_str(), &entries[i].1) {
            Err(fault) => {
                proof {
                    assert(step(before[i as int]).error == Some(fault@));
                    lemma_first_failure(before, step);
                    assert(sweep(before, step).value =~= entries_view(entries@));
                }
                return Err(fault.under(Segment::Key(entries[i].0.clone())));
            },
            Ok(true) => {
                entries[i].1.set("version", placeholder_value());
            },
            Ok(false) => {},
        }
        proof {
            assert forall|j: int| 0 <= j < i + 1 implies entries_view(entries@)[j] == step(
                before[j],
            ).value by {
                assert(entries_view(entries@)[j] == if j < i {
                    current[j]
                } else {
                    step(before[j]).value
                });
            }
            assert forall|j: int| i + 1 <= j < n implies entries_view(entries@)[j] == before[j] by {
                assert(entries_view(entries@)[j] == current[j]);
            }
        }
        i += 1;
    }
    proof {
        lemma_first_failure(before, step);
        assert(sweep(before, step).value =~= entries_view(entries@));
    }
    Ok(())
}

/// Masks a dependency table; what is no table stays as it is.
fn mask_dependency_table(locals: &[Package], table: &mut Value) -> (r: Result<(), Fault>)
    ensures
        final(table)@ == masked_dependency_table(packages_view(locals@), old(table)@).value,
        fault_of(r) == masked_dependency_table(packages_view(locals@), old(table)@).error,
{
    match table.as_table_mut() {
        Some(entries) => mask_dependencies(locals, entries),
        None => Ok(()),
    }
}

/// Masks the dependency table that `tree` holds under `name`.
fn mask_table(locals: &[Package], tree: &mut Value, name: &str) -> (r: Result<(), Fault>)
    ensures
        final(tree)@ == masked_table(packages_view(locals@), old(tree)@, name@).value,
        fault_of(r) == masked_table(packages_view(locals@), old(tree)@, name@).error,
{
    match tree.get_mut(name) {
        Some(table) => lift(mask_dependency_table(locals, table), name),
        None => Ok(()),
    }
}

/// Masks the three dependency tables of `tree`: `dependencies`,
/// `dev-dependencies` and `build-dependencies`.
///
/// Each entry of such a table that declares a `version` and names a local
/// package, by its `package` field or else by its key, gets the placeholder
/// as its version where the recorded version of that package covers the
/// declared one. Work stops at the first entry that cannot be read.
pub fn mask_dependency_tables(locals: &[Package], tree: &mut Value) -> (r: Result<(), Fault>)
    ensures
        final(tree)@ == masked_tables(packages_view(locals@), old(tree)@).value,
        fault_of(r) == masked_tables(packages_view(locals@), old(tree)@).error,
{
    mask_table(locals, tree, "dependencies")?;
    mask_table(locals, tree, "dev-dependencies")?;
    mask_table(locals, tree, "build-dependencies")
}

/// Masks the dependency tables of each target.
fn mask_target_entries(locals: &[Package], entries: &mut Vec<(String, Value)>) -> (r: Result<
    (),
    Fault,
>)
    ensures
        Tree::Table(entries_view(final(entries)@)) == masked_target_table(
            packages_view(locals@),
            Tree::Table(entries_view(old(entries)@)),
        ).value,
        fault_of(r) == masked_target_table(
            packages_view(locals@),
            Tree::Table(entries_view(old(entries)@)),
        ).error,
{
    let ghost before = entries_view(entries@);
    let ghost known = packages_view(locals@);
    let ghost step = |entry: (Seq<char>, Tree)| masked_target(known, entry);
    let n = entries.len();
    let mut i: usize = 0;
    while i < n
        invariant
            i <= n,
            entries.len() == n,
            before.len() == n,
            before == entries_view(old(entries)@),
            known == packages_view(locals@),
            step == |entry: (Seq<char>, Tree)| masked_target(known, entry),
            forall|j: int| 0 <= j < i ==> (#[trigger] step(before[j])).error is None,
            forall|j: int| 0 <= j < i ==> entries_view(entries@)[j] == step(before[j]).value,
            forall|j: int| i <= j < n ==> entries_view(entries@)[j] == before[j],
        decreases n - i,
    {
        let ghost current = entries_view(entries@);
        let r = mask_dependency_tables(locals, &mut entries[i].1);
        proof {
            assert forall|j: int| 0 <= j < i + 1 implies entries_view(entries@)[j] == step(
                before[j],
            ).value by {
                assert(entries_view(entries@)[j] == if j < i {
                    current[j]
                } else {
                    step(before[j]).value
                });
            }
            assert forall|j: int| i + 1 <= j < n implies entries_view(entries@)[j] == before[j] by {
                assert(entries_view(entries@)[j] == current[j]);
            }
        }
        match r {
            Err(fault) => {
                proof {
                    assert(step(before[i as int]).error == Some(fault@));
                    lemma_first_failure(before, step);
                    assert(sweep(before, step).value =~= entries_view(entries@));
                }
                return Err(fault.under(Segment::Key(entries[i].0.clone())));
            },
            Ok(()) => {},
        }
        i += 1;
    }
    proof {
        lemma_first_failure(before, step);
        assert(sweep(before, step).value =~= entries_view(entries@));
    }
    Ok(())
}

/// Masks the `target` table; what is no table stays as it is.
fn mask_target_table(locals: &[Package], targets: &mut Value) -> (r: Result<(), Fault>)
    ensures
        final(targets)@ == masked_target_table(packages_view(locals@), old(targets)@).value,
        fault_of(r) == masked_target_table(packages_view(locals@), old(targets)@).error,
{
    match targets.as_table_mut() {
        Some(entries) => mask_target_entries(locals, entries),
        None => Ok(()),
    }
}

/// Masks the dependency tables of the targets of a manifest.
fn mask_targets(locals: &[Package], manifest: &mut Value) -> (r: Result<(), Fault>)
    ensures
        final(manifest)@ == in_field(
            old(manifest)@,
            "target"@,
            |targets: Tree| masked_target_table(packages_view(locals@), targets),
        ).value,
        fault_of(r) == in_field(
            old(manifest)@,
            "target"@,
            |targets: Tree| masked_target_table(packages_view(locals@), targets),
        ).error,
{
    match manifest.get_mut("target") {
        Some(targets) => lift(mask_target_table(locals, targets), "target"),
        None => Ok(()),
    }
}

/// Puts the placeholder in place of the version of the `package` table of
/// a manifest or of a workspace, where that is a string.
fn mask_own_version(manifest: &mut Value)
    ensures
        final(manifest)@ == with_own_version_masked(old(manifest)@),
{
    match manifest.get_mut("package") {
        Some(package) => {
            let ghost declared = package@;
            match package.get_mut("version") {
                Some(version) => {
                    if version.as_str().is_some() {
                        *version = placeholder_value();
                    }
                },
                None => {},
            }
            proof {
                lemma_with_field(declared, "version"@, placeholder());
                if field(declared, "version"@) is Some {
                    lemma_with_field(declared, "version"@, field(declared, "version"@)->0);
                }
                lemma_with_field(old(manifest)@, "package"@, declared);
            }
        },
        None => {},
    }
}

/// Masks the `workspace` table.
fn mask_workspace_table(locals: &[Package], workspace: &mut Value) -> (r: Result<(), Fault>)
    ensures
        final(workspace)@ == masked_workspace(packages_view(locals@), old(workspace)@).value,
        fault_of(r) == masked_workspace(packages_view(locals@), old(workspace)@).error,
{
    mask_own_version(workspace);
    mask_table(locals, workspace, "dependencies")
}

/// Masks what a manifest declares for its workspace.
fn mask_workspace(locals: &[Package], manifest: &mut Value) -> (r: Result<(), Fault>)
    ensures
        final(manifest)@ == in_field(
            old(manifest)@,
            "workspace"@,
            |workspace: Tree| masked_workspace(packages_view(locals@), workspace),
        ).value,
        fault_of(r) == in_field(
            old(manifest)@,
            "workspace"@,
            |workspace: Tree| masked_workspace(packages_view(locals@), workspace),
        ).error,
{
    match manifest.get_mut("workspace") {
        Some(workspace) => lift(mask_workspace_table(locals, workspace), "workspace"),
        None => Ok(()),
    }
}

/// Masks the versions that the dependencies of `manifest` declare.
///
/// A dependency can stand in three places, and all are treated alike: in the
/// dependency tables of the manifest itself, in those of each entry of its
/// `target` table, and in the `dependencies` table of its `workspace` table.
/// The version of the `package` table of the workspace is masked with them,
/// as the own version of a manifest is.
///
/// The first entry that cannot be read ends the work: what was masked until
/// then stays masked, and nothing else has changed.
pub fn mask_local_dependency_versions(
    local_package_names: &[Package],
    manifest: &mut ParsedManifest,
) -> (r: Result<(), Fault>)
    ensures
        final(manifest)@ == masked_dependency_versions(
            packages_view(local_package_names@),
            old(manifest)@,
        ).value,
        fault_of(r) == masked_dependency_versions(
            packages_view(local_package_names@),
            old(manifest)@,
        ).error,
{
    mask_dependency_tables(local_package_names, &mut manifest.contents)?;
    mask_targets(local_package_names, &mut manifest.contents)?;
    mask_workspace(local_package_names, &mut manifest.contents)
}

/// Masks one manifest: its own version, where it declares one as a string,
/// and the versions that its dependencies declare.
pub fn mask_manifest(local_package_names: &[Package], manifest: &mut ParsedManifest) -> (r: Result<
    (),
    Fault,
>)
    ensures
        final(manifest)@ == masked_manifest(
            packages_view(local_package_names@),
            old(manifest)@,
        ).value,
        fault_of(r) == masked_manifest(packages_view(local_package_names@), old(manifest)@).error,
{
    mask_own_version(&mut manifest.contents);
    mask_local_dependency_versions(local_package_names, manifest)
}

/// Masks every manifest of a set, in order.
///
/// The first manifest on which masking fails ends the work, and the failure
/// names it. That manifest is left as far as masking came, those before it
/// are masked, and those after it are untouched.
pub fn mask_local_versions_in_manifests(
    manifests: &mut [ParsedManifest],
    local_package_names: &[Package],
) -> (r: Result<(), RunFault>)
    ensures
        manifests_view(final(manifests)@) == masked_manifests(
            packages_view(local_package_names@),
            manifests_view(old(manifests)@),
        ).value,
        run_fault_of(r) == manifests_outcome(
            packages_view(local_package_names@),
            manifests_view(old(manifests)@),
        ),
{
    let ghost before = manifests_view(manifests@);
    let ghost known = packages_view(local_package_names@);
    let ghost step = |manifest: Tree| masked_manifest(known, manifest);
    let n = manifests.len();
    let mut i: usize = 0;
    while i < n
        invariant
            i <= n,
            manifests.len() == n,
            before.len() == n,
            before == manifests_view(old(manifests)@),
            known == packages_view(local_package_names@),
            step == |manifest: Tree| masked_manifest(known, manifest),
            forall|j: int| 0 <= j < i ==> (#[trigger] step(before[j])).error is None,
            forall|j: int| 0 <= j < i ==> manifests_view(manifests@)[j] == step(before[j]).value,
            forall|j: int| i <= j < n ==> manifests_view(manifests@)[j] == before[j],
        decreases n - i,
    {
        let ghost current = manifests_view(manifests@);
        let r = mask_manifest(local_package_names, &mut manifests[i]);
        proof {
            assert forall|j: int| 0 <= j < i + 1 implies manifests_view(manifests@)[j] == step(
                before[j],
            ).value by {
                assert(manifests_view(manifests@)[j] == if j < i {
                    current[j]
                } else {
                    step(before[j]).value
                });
            }
            assert forall|j: int| i + 1 <= j < n implies manifests_view(manifests@)[j]
                == before[j] by {
                assert(manifests_view(manifests@)[j] == current[j]);
            }
        }
        match r {
            Err(fault) => {
                proof {
                    assert(step(before[i as int]).error == Some(fault@));
                    lemma_first_failure(before, step);
                    assert(sweep(before, step).value =~= manifests_view(manifests@));
                }
                return Err(fault.within(DocumentId::Manifest(i)));
            },
            Ok(()) => {},
        }
        i += 1;
    }
    proof {
        lemma_first_failure(before, step);
        assert(sweep(before, step).value =~= manifests_view(manifests@));
    }
    Ok(())
}

} // verus!
