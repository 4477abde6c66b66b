//! What masking writes, and where.
//!
//! A dependency is judged by the name of its package, wherever it is
//! declared: at the top of a manifest, under one of its targets, or for
//! its workspace. An entry of a lock document that stands for a local
//! package is masked together with the references that it holds.

use vstd::prelude::*;
use crate::discovery::{declared_packages, names_declared_once};
use crate::document::{field, lemma_with_field, Tree};
use crate::error::FaultView;
use crate::lockfile::{
    lock_entry_verdict, masked_lock, masked_lock_entries, masked_lock_entry, masked_reference,
    masked_reference_text, masked_references, reference, refers_to_local,
};
use crate::manifest::{
    dependency_verdict, masked_dependency, masked_dependency_table, masked_manifest,
    masked_manifests, masked_tables, masked_target, masked_target_table, masked_workspace,
    placeholder, with_version_masked, CONST_VERSION,
};
use crate::package::PackageView;
use crate::{run_of, Run};
use crate::stages::{
    lemma_keys_differ, lemma_manifest_chain, lemma_tables_chain, lemma_workspace_chain,
    manifest_stages, tables_stages, workspace_stages,
};
use crate::sweep::{lemma_chain_done, lemma_chain_field, lemma_sweep};
use crate::text::{lemma_prefix_len, spaceless, stops_at};

verus! {

/// A dependency that names its package is judged by that name, and its key
/// plays no part: under any other key it would be judged and masked alike.
pub proof fn lemma_renamed_dependency(
    locals: Seq<PackageView>,
    key: Seq<char>,
    other: Seq<char>,
    dependency: Tree,
)
    requires
        field(dependency, "package"@) is Some,
    ensures
        dependency_verdict(locals, key, dependency) == dependency_verdict(
            locals,
            other,
            dependency,
        ),
        masked_dependency(locals, (key, dependency)).value.1 == masked_dependency(
            locals,
            (other, dependency),
        ).value.1,
        masked_dependency(locals, (key, dependency)).error == masked_dependency(
            locals,
            (other, dependency),
        ).error,
{
}

/// A dependency with a version that names its package as `name` is judged
/// as `name` is, whatever its key: as a dependency without a `package`
/// field under the key `name` would be.
pub proof fn lemma_renamed_as_named(
    locals: Seq<PackageView>,
    key: Seq<char>,
    name: Seq<char>,
    dependency: Tree,
    plain: Tree,
)
    requires
        field(dependency, "package"@) == Some(Tree::String(name)),
        field(plain, "package"@) is None,
        field(plain, "version"@) == field(dependency, "version"@),
    ensures
        dependency_verdict(locals, key, dependency) == dependency_verdict(locals, name, plain),
{
}

/// Whether `after` holds, under each of the three names of dependency
/// tables, what masking makes of what `before` holds there.
pub open spec fn tables_masked(locals: Seq<PackageView>, before: Tree, after: Tree) -> bool {
    &&& table_masked_under(locals, before, after, "dependencies"@)
    &&& table_masked_under(locals, before, after, "dev-dependencies"@)
    &&& table_masked_under(locals, before, after, "build-dependencies"@)
}

/// Whether `after` holds under `name` what masking makes of the dependency
/// table that `before` holds there.
pub open spec fn table_masked_under(
    locals: Seq<PackageView>,
    before: Tree,
    after: Tree,
    name: Seq<char>,
) -> bool {
    match field(before, name) {
        Some(table) => masked_dependency_table(locals, table).error is None && field(after, name)
            == Some(masked_dependency_table(locals, table).value),
        None => field(after, name) is None,
    }
}

/// Whether the `target` table `after` holds the targets of `before`, each
/// with its dependency tables masked.
pub open spec fn targets_masked(locals: Seq<PackageView>, before: Tree, after: Tree) -> bool {
    match before {
        Tree::Table(targets) => {
            &&& after is Table
            &&& after->Table_0.len() == targets.len()
            &&& forall|i: int|
                0 <= i < targets.len() ==> after->Table_0[i].0 == (#[trigger] targets[i]).0
                    && tables_masked(locals, targets[i].1, after->Table_0[i].1)
        },
        _ => after == before,
    }
}

/// Whether `after` is the manifest `before` with every version masked that
/// masking is to mask: the dependency tables at the top, under each target
/// and for the workspace are masked by one and the same rule, and so are
/// the version of the package and that of the workspace.
pub open spec fn manifest_masked(locals: Seq<PackageView>, before: Tree, after: Tree) -> bool {
    &&& tables_masked(locals, before, after)
    &&& match field(before, "target"@) {
        Some(targets) => field(after, "target"@) is Some && targets_masked(
            locals,
            targets,
            field(after, "target"@)->0,
        ),
        None => field(after, "target"@) is None,
    }
    &&& match field(before, "workspace"@) {
        Some(workspace) => {
            &&& field(after, "workspace"@) is Some
            &&& table_masked_under(
                locals,
                workspace,
                field(after, "workspace"@)->0,
                "dependencies"@,
            )
            &&& version_masked_under(workspace, field(after, "workspace"@)->0)
        },
        None => field(after, "workspace"@) is None,
    }
    &&& version_masked_under(before, after)
}

/// Whether the `package` table of `after` is that of `before` with the
/// placeholder as its version, where that was a string.
pub open spec fn version_masked_under(before: Tree, after: Tree) -> bool {
    match field(before, "package"@) {
        Some(package) => field(after, "package"@) == Some(
            if field(package, "version"@) matches Some(Tree::String(_)) {
                with_version_masked(package)
            } else {
                package
            },
        ),
        None => field(after, "package"@) is None,
    }
}

/// Masking the three dependency tables of a tree masks each of them.
pub proof fn lemma_tables_masked(locals: Seq<PackageView>, tree: Tree)
    requires
        masked_tables(locals, tree).error is None,
    ensures
        tables_masked(locals, tree, masked_tables(locals, tree).value),
{
    let stages = tables_stages(locals);
    lemma_tables_chain(locals, tree);
    assert forall|at: int| 0 <= at < 3 implies table_masked_under(
        locals,
        tree,
        masked_tables(locals, tree).value,
        (#[trigger] stages[at]).key,
    ) by {
        lemma_chain_field(tree, stages, at);
        if field(tree, stages[at].key) is Some {
            lemma_chain_done(tree, stages, at);
        }
    }
    assert(stages[0].key == "dependencies"@);
    assert(stages[1].key == "dev-dependencies"@);
    assert(stages[2].key == "build-dependencies"@);
}

/// Dependencies are masked by one rule wherever they are declared.
///
/// Where masking a manifest does not fail, the masked manifest holds the
/// dependency tables of the manifest, those of each of its targets and
/// that of its workspace, each masked as a dependency table is; and the
/// placeholder is the version of its package and of the package of its
/// workspace, where that was a string.
pub proof fn lemma_manifest_masked(locals: Seq<PackageView>, manifest: Tree)
    requires
        masked_manifest(locals, manifest).error is None,
    ensures
        manifest_masked(locals, manifest, masked_manifest(locals, manifest).value),
{
    let stages = manifest_stages(locals);
    let after = masked_manifest(locals, manifest).value;
    lemma_manifest_chain(locals, manifest);
    lemma_keys_differ();
    assert(stages[0].key == "package"@);
    assert(stages[1].key == "dependencies"@);
    assert(stages[2].key == "dev-dependencies"@);
    assert(stages[3].key == "build-dependencies"@);
    assert(stages[4].key == "target"@);
    assert(stages[5].key == "workspace"@);
    assert forall|at: int| 0 <= at < 6 implies (match field(manifest, (#[trigger] stages[at]).key) {
        Some(held) => (stages[at].inner)(held).error is None && field(after, stages[at].key)
            == Some((stages[at].inner)(held).value),
        None => field(after, stages[at].key) is None,
    }) by {
        lemma_chain_field(manifest, stages, at);
        if field(manifest, stages[at].key) is Some {
            lemma_chain_done(manifest, stages, at);
        }
    }
    assert(table_masked_under(locals, manifest, after, stages[1].key));
    assert(table_masked_under(locals, manifest, after, stages[2].key));
    assert(table_masked_under(locals, manifest, after, stages[3].key));
    match field(manifest, stages[4].key) {
        Some(targets) => {
            lemma_targets_masked(locals, targets);
        },
        None => {},
    }
    match field(manifest, stages[5].key) {
        Some(workspace) => {
            lemma_workspace_masked(locals, workspace);
        },
        None => {},
    }
    assert(version_masked_under(manifest, after)) by {
        assert(field(manifest, stages[0].key) is Some ==> field(after, stages[0].key) == Some(
            (stages[0].inner)(field(manifest, stages[0].key)->0).value,
        ));
    }
}

/// Masking the `target` table masks the dependency tables of each target.
pub proof fn lemma_targets_masked(locals: Seq<PackageView>, targets: Tree)
    requires
        masked_target_table(locals, targets).error is None,
    ensures
        targets_masked(locals, targets, masked_target_table(locals, targets).value),
{
    match targets {
        Tree::Table(entries) => {
            let step = |entry: (Seq<char>, Tree)| masked_target(locals, entry);
            let after = masked_target_table(locals, targets).value;
            lemma_sweep(entries, step);
            assert forall|i: int| 0 <= i < entries.len() implies after->Table_0[i].0 == (
            #[trigger] entries[i]).0 && tables_masked(locals, entries[i].1, after->Table_0[i].1) by {
                assert(step(entries[i]).error is None);
                lemma_tables_masked(locals, entries[i].1);
            }
        },
        _ => {},
    }
}

/// Masking the `workspace` table masks its dependency table and the
/// version of its package.
pub proof fn lemma_workspace_masked(locals: Seq<PackageView>, workspace: Tree)
    requires
        masked_workspace(locals, workspace).error is None,
    ensures
        table_masked_under(
            locals,
            workspace,
            masked_workspace(locals, workspace).value,
            "dependencies"@,
        ),
        version_masked_under(workspace, masked_workspace(locals, workspace).value),
{
    let stages = workspace_stages(locals);
    lemma_workspace_chain(locals, workspace);
    assert(stages[0].key == "package"@);
    assert(stages[1].key == "dependencies"@);
    lemma_chain_field(workspace, stages, 0);
    lemma_chain_field(workspace, stages, 1);
    if field(workspace, "package"@) is Some {
        lemma_chain_done(workspace, stages, 0);
    }
    if field(workspace, "dependencies"@) is Some {
        lemma_chain_done(workspace, stages, 1);
    }
}

/// A reference to a local package in its recorded version is masked into
/// the name of the package, a space and the placeholder, where the name
/// holds no space.
pub proof fn lemma_reference_masked(locals: Seq<PackageView>, at: int)
    requires
        0 <= at < locals.len(),
        spaceless(locals[at].name),
    ensures
        masked_reference(locals, Tree::String(reference(locals[at]))).value == Tree::String(
            locals[at].name + " "@ + CONST_VERSION@,
        ),
{
    reveal_strlit(" ");
    let name = locals[at].name;
    let text = reference(locals[at]);
    assert(refers_to_local(locals, text));
    assert(stops_at(text, ' ', name.len() as int)) by {
        assert forall|j: int| 0 <= j < name.len() implies text[j] != ' ' by {
            assert(text[j] == name[j]);
        }
        assert(text[name.len() as int] == " "@[0]);
    }
    lemma_prefix_len(text, ' ');
    assert(text.take(name.len() as int) =~= name);
}

/// Whether the entry `after` of a lock document is the entry `before`
/// masked: the placeholder is its version, and each of its references is
/// masked where it refers to a local package in its recorded version, and
/// is as it was where it does not.
pub open spec fn lock_entry_masked(locals: Seq<PackageView>, before: Tree, after: Tree) -> bool {
    &&& field(after, "version"@) == Some(placeholder())
    &&& field(after, "name"@) == field(before, "name"@)
    &&& match field(before, "dependencies"@) {
        Some(Tree::Array(items)) => {
            &&& field(after, "dependencies"@) is Some
            &&& field(after, "dependencies"@)->0 is Array
            &&& field(after, "dependencies"@)->0->Array_0.len() == items.len()
            &&& forall|i: int|
                0 <= i < items.len() ==> (#[trigger] items[i]) is String && field(
                    after,
                    "dependencies"@,
                )->0->Array_0[i] == Tree::String(
                    if refers_to_local(locals, items[i]->String_0) {
                        masked_reference_text(items[i]->String_0)
                    } else {
                        items[i]->String_0
                    },
                )
        },
        other => field(after, "dependencies"@) == other,
    }
}

/// An entry of a lock document that stands for a local package is masked
/// with its references.
pub proof fn lemma_lock_entry_masked(locals: Seq<PackageView>, entry: Tree)
    requires
        lock_entry_verdict(locals, entry) == Ok::<bool, FaultView>(true),
        masked_lock_entry(locals, entry).error is None,
    ensures
        lock_entry_masked(locals, entry, masked_lock_entry(locals, entry).value),
{
    lemma_keys_differ();
    let versioned = with_version_masked(entry);
    let after = masked_lock_entry(locals, entry).value;
    lemma_with_field(entry, "version"@, placeholder());
    match field(versioned, "dependencies"@) {
        Some(list) => {
            lemma_with_field(versioned, "dependencies"@, masked_references(locals, list).value);
            match list {
                Tree::Array(items) => {
                    let step = |item: Tree| masked_reference(locals, item);
                    lemma_sweep(items, step);
                    assert forall|i: int| 0 <= i < items.len() implies (#[trigger] items[i])
                        is String by {
                        assert(step(items[i]).error is None);
                    }
                },
                _ => {},
            }
        },
        None => {},
    }
}

/// Whether the lock document `after` is `before` masked: its list of
/// packages holds each entry of that of `before` at its place, masked where
/// it stands for a local package and as it was where it does not.
pub open spec fn lock_masked(locals: Seq<PackageView>, before: Tree, after: Tree) -> bool {
    match field(before, "package"@) {
        Some(Tree::Array(entries)) => {
            &&& field(after, "package"@) is Some
            &&& field(after, "package"@)->0 is Array
            &&& field(after, "package"@)->0->Array_0.len() == entries.len()
            &&& forall|i: int|
                0 <= i < entries.len() ==> if lock_entry_verdict(locals, #[trigger] entries[i])
                    == Ok::<bool, FaultView>(true) {
                    lock_entry_masked(locals, entries[i], field(after, "package"@)->0->Array_0[i])
                } else {
                    lock_entry_verdict(locals, entries[i]) == Ok::<bool, FaultView>(false)
                        && field(after, "package"@)->0->Array_0[i] == entries[i]
                }
        },
        other => field(after, "package"@) == other,
    }
}

/// Masking reaches every entry of a lock document.
///
/// Where masking a lock document does not fail, every entry of its list of
/// packages that stands for a local package has the placeholder as its
/// version, every reference of such an entry to a local package in its
/// recorded version has the placeholder as its version too, and everything
/// else is as it was.
pub proof fn lemma_lock_masked(locals: Seq<PackageView>, lock: Tree)
    requires
        masked_lock(locals, lock).error is None,
    ensures
        lock_masked(locals, lock, masked_lock(locals, lock).value),
{
    match field(lock, "package"@) {
        Some(packages) => {
            lemma_with_field(lock, "package"@, masked_lock_entries(locals, packages).value);
            match packages {
                Tree::Array(entries) => {
                    let step = |entry: Tree| masked_lock_entry(locals, entry);
                    let after = masked_lock(locals, lock).value;
                    lemma_sweep(entries, step);
                    assert forall|i: int| 0 <= i < entries.len() implies if lock_entry_verdict(
                        locals,
                        #[trigger] entries[i],
                    ) == Ok::<bool, FaultView>(true) {
                        lock_entry_masked(
                            locals,
                            entries[i],
                            field(after, "package"@)->0->Array_0[i],
                        )
                    } else {
                        lock_entry_verdict(locals, entries[i]) == Ok::<bool, FaultView>(false)
                            && field(after, "package"@)->0->Array_0[i] == entries[i]
                    } by {
                        assert(step(entries[i]).error is None);
                        if lock_entry_verdict(locals, entries[i]) == Ok::<bool, FaultView>(true) {
                            lemma_lock_entry_masked(locals, entries[i]);
                        }
                    }
                },
                _ => {},
            }
        },
        None => {},
    }
}

/// Whether the documents of `run` are `manifests` and `lock`, each masked
/// with `locals`.
pub open spec fn run_masked(
    locals: Seq<PackageView>,
    manifests: Seq<Tree>,
    lock: Option<Tree>,
    run: Run,
) -> bool {
    &&& run.manifests.len() == manifests.len()
    &&& forall|i: int|
        0 <= i < manifests.len() ==> manifest_masked(
            locals,
            #[trigger] manifests[i],
            run.manifests[i],
        )
    &&& match lock {
        Some(document) => run.lock is Some && lock_masked(locals, document, run.lock->0),
        None => run.lock is None,
    }
}

/// A run that succeeds masks every document, with the local packages that
/// the manifests declare.
pub proof fn lemma_run_masked(manifests: Seq<Tree>, lock: Option<Tree>)
    requires
        run_of(manifests, lock).outcome is Ok,
    ensures
        names_declared_once(manifests),
        run_masked(declared_packages(manifests), manifests, lock, run_of(manifests, lock)),
{
    let locals = declared_packages(manifests);
    let run = run_of(manifests, lock);
    let step = |manifest: Tree| masked_manifest(locals, manifest);
    if !names_declared_once(manifests) {
        assert(run.outcome is Err);
    }
    assert(masked_manifests(locals, manifests).error is None);
    lemma_sweep(manifests, step);
    assert forall|i: int| 0 <= i < manifests.len() implies manifest_masked(
        locals,
        #[trigger] manifests[i],
        run.manifests[i],
    ) by {
        assert(step(manifests[i]).error is None);
        lemma_manifest_masked(locals, manifests[i]);
    }
    if lock is Some {
        lemma_lock_masked(locals, lock->0);
    }
}

} // verus!
