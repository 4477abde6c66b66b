//! Masking leaves alone what belongs to no local package.
//!
//! Whatever the documents hold, and whether masking comes to its end or
//! stops at a fault, a dependency that names no local package, an entry of
//! the lock document under another name and a reference to anything but a
//! local package in its recorded version are afterwards what they were
//! ([`lemma_run_kept`]).

use vstd::prelude::*;
use crate::document::{field, lemma_with_field, Tree};
use crate::stages::{
    lemma_keys_differ, lemma_manifest_chain, lemma_tables_chain, lemma_workspace_chain,
    manifest_stages, tables_stages, workspace_stages,
};
use crate::lockfile::{
    masked_lock, masked_lock_entries, masked_lock_entry, masked_reference, masked_references,
    refers_to_local,
};
use crate::manifest::{
    masked_dependency, masked_dependency_table, masked_manifest, masked_tables, masked_target,
    masked_target_table, masked_workspace, placeholder, with_version_masked,
};
use crate::discovery::declared_packages;
use crate::package::{local_index, PackageView};
use crate::{run_of, Run};
use crate::sweep::{
    lemma_chain_elsewhere, lemma_chain_field, lemma_in_field_elsewhere, lemma_sweep_item,
};

verus! {

/// Whether the dependency `entry` names a local package: by its `package`
/// field, or by its key where it has no such field.
pub open spec fn names_local(locals: Seq<PackageView>, entry: (Seq<char>, Tree)) -> bool {
    match field(entry.1, "package"@) {
        None => local_index(locals, entry.0) is Some,
        Some(Tree::String(name)) => local_index(locals, name) is Some,
        Some(_) => false,
    }
}

/// Whether the dependency table `after` holds every entry of `before` that
/// names no local package, at its place and as it was.
pub open spec fn remote_kept(locals: Seq<PackageView>, before: Tree, after: Tree) -> bool {
    match before {
        Tree::Table(entries) => {
            &&& after is Table
            &&& after->Table_0.len() == entries.len()
            &&& forall|i: int|
                0 <= i < entries.len() && !names_local(locals, #[trigger] entries[i])
                    ==> after->Table_0[i] == entries[i]
        },
        _ => after == before,
    }
}

/// Whether what `after` holds under `name` keeps the remote entries of what
/// `before` holds there.
pub open spec fn remote_kept_under(
    locals: Seq<PackageView>,
    before: Tree,
    after: Tree,
    name: Seq<char>,
) -> bool {
    match field(before, name) {
        Some(table) => field(after, name) is Some && remote_kept(
            locals,
            table,
            field(after, name)->0,
        ),
        None => field(after, name) is None,
    }
}

/// Whether the three dependency tables of `after` keep the remote entries
/// of those of `before`.
pub open spec fn tables_kept(locals: Seq<PackageView>, before: Tree, after: Tree) -> bool {
    &&& remote_kept_under(locals, before, after, "dependencies"@)
    &&& remote_kept_under(locals, before, after, "dev-dependencies"@)
    &&& remote_kept_under(locals, before, after, "build-dependencies"@)
}

/// Whether the `target` table `after` holds the targets of `before`, each
/// with the remote entries of its dependency tables kept.
pub open spec fn targets_kept(locals: Seq<PackageView>, before: Tree, after: Tree) -> bool {
    match before {
        Tree::Table(entries) => {
            &&& after is Table
            &&& after->Table_0.len() == entries.len()
            &&& forall|i: int|
                0 <= i < entries.len() ==> after->Table_0[i].0 == (#[trigger] entries[i]).0
                    && tables_kept(locals, entries[i].1, after->Table_0[i].1)
        },
        _ => after == before,
    }
}

/// Whether the manifest `after` keeps every dependency of `before` that
/// names no local package: in its own dependency tables, in those of each
/// target and in that of the workspace. What it holds under other keys
/// than those that masking reads is as before.
pub open spec fn manifest_kept(locals: Seq<PackageView>, before: Tree, after: Tree) -> bool {
    &&& tables_kept(locals, before, after)
    &&& match field(before, "target"@) {
        Some(targets) => field(after, "target"@) is Some && targets_kept(
            locals,
            targets,
            field(after, "target"@)->0,
        ),
        None => field(after, "target"@) is None,
    }
    &&& match field(before, "workspace"@) {
        Some(workspace) => field(after, "workspace"@) is Some && remote_kept_under(
            locals,
            workspace,
            field(after, "workspace"@)->0,
            "dependencies"@,
        ),
        None => field(after, "workspace"@) is None,
    }
    &&& forall|key: Seq<char>|
        key != "package"@ && key != "dependencies"@ && key != "dev-dependencies"@ && key
            != "build-dependencies"@ && key != "target"@ && key != "workspace"@ ==> #[trigger] field(
            after,
            key,
        ) == field(before, key)
}

/// A dependency that names no local package is not masked.
pub proof fn lemma_remote_dependency(locals: Seq<PackageView>, entry: (Seq<char>, Tree))
    requires
        !names_local(locals, entry),
    ensures
        masked_dependency(locals, entry).value == entry,
{
}

/// A dependency table keeps its remote entries, masked or not.
pub proof fn lemma_table_kept(locals: Seq<PackageView>, table: Tree)
    ensures
        remote_kept(locals, table, table),
        remote_kept(locals, table, masked_dependency_table(locals, table).value),
{
    match table {
        Tree::Table(entries) => {
            let step = |entry: (Seq<char>, Tree)| masked_dependency(locals, entry);
            let after = masked_dependency_table(locals, table).value;
            assert forall|i: int|
                0 <= i < entries.len() && !names_local(
                    locals,
                    #[trigger] entries[i],
                ) implies after->Table_0[i] == entries[i] by {
                lemma_sweep_item(entries, step, i);
                lemma_remote_dependency(locals, entries[i]);
            }
            if entries.len() > 0 {
                lemma_sweep_item(entries, step, 0);
            }
        },
        _ => {},
    }
}

/// Masking the three dependency tables of a tree keeps their remote
/// entries.
pub proof fn lemma_tables_kept(locals: Seq<PackageView>, tree: Tree)
    ensures
        tables_kept(locals, tree, tree),
        tables_kept(locals, tree, masked_tables(locals, tree).value),
{
    let stages = tables_stages(locals);
    lemma_tables_chain(locals, tree);
    assert forall|at: int| 0 <= at < 3 implies remote_kept_under(
        locals,
        tree,
        tree,
        (#[trigger] stages[at]).key,
    ) && remote_kept_under(locals, tree, masked_tables(locals, tree).value, stages[at].key) by {
        lemma_chain_field(tree, stages, at);
        if field(tree, stages[at].key) is Some {
            lemma_table_kept(locals, field(tree, stages[at].key)->0);
        }
    }
    assert(stages[0].key == "dependencies"@);
    assert(stages[1].key == "dev-dependencies"@);
    assert(stages[2].key == "build-dependencies"@);
}

/// Masking the `target` table keeps the remote entries of each target.
pub proof fn lemma_targets_kept(locals: Seq<PackageView>, targets: Tree)
    ensures
        targets_kept(locals, targets, targets),
        targets_kept(locals, targets, masked_target_table(locals, targets).value),
{
    match targets {
        Tree::Table(entries) => {
            let step = |entry: (Seq<char>, Tree)| masked_target(locals, entry);
            let after = masked_target_table(locals, targets).value;
            assert forall|i: int| 0 <= i < entries.len() implies after->Table_0[i].0 == (
            #[trigger] entries[i]).0 && tables_kept(locals, entries[i].1, after->Table_0[i].1)
                && tables_kept(locals, entries[i].1, entries[i].1) by {
                lemma_sweep_item(entries, step, i);
                lemma_tables_kept(locals, entries[i].1);
            }
            if entries.len() > 0 {
                lemma_sweep_item(entries, step, 0);
            }
        },
        _ => {},
    }
}

/// Masking the `workspace` table keeps the remote entries of its
/// dependency table.
pub proof fn lemma_workspace_kept(locals: Seq<PackageView>, workspace: Tree)
    ensures
        remote_kept_under(locals, workspace, workspace, "dependencies"@),
        remote_kept_under(
            locals,
            workspace,
            masked_workspace(locals, workspace).value,
            "dependencies"@,
        ),
{
    let stages = workspace_stages(locals);
    lemma_workspace_chain(locals, workspace);
    lemma_chain_field(workspace, stages, 1);
    assert(stages[1].key == "dependencies"@);
    if field(workspace, "dependencies"@) is Some {
        lemma_table_kept(locals, field(workspace, "dependencies"@)->0);
    }
}

/// Masking never alters a dependency that names no local package.
///
/// Whatever the manifest holds and whether masking fails or not, every
/// entry of a dependency table whose package is not among the local
/// packages stands in the masked manifest at its place and as it was.
pub proof fn lemma_manifest_kept(locals: Seq<PackageView>, manifest: Tree)
    ensures
        manifest_kept(locals, manifest, masked_manifest(locals, manifest).value),
{
    let stages = manifest_stages(locals);
    let after = masked_manifest(locals, manifest).value;
    lemma_manifest_chain(locals, manifest);
    lemma_keys_differ();
    assert forall|at: int| 1 <= at <= 3 implies remote_kept_under(
        locals,
        manifest,
        after,
        (#[trigger] stages[at]).key,
    ) by {
        lemma_chain_field(manifest, stages, at);
        if field(manifest, stages[at].key) is Some {
            lemma_table_kept(locals, field(manifest, stages[at].key)->0);
        }
    }
    assert(stages[1].key == "dependencies"@);
    assert(stages[2].key == "dev-dependencies"@);
    assert(stages[3].key == "build-dependencies"@);
    assert(stages[4].key == "target"@);
    assert(stages[5].key == "workspace"@);
    lemma_chain_field(manifest, stages, 4);
    if field(manifest, "target"@) is Some {
        lemma_targets_kept(locals, field(manifest, "target"@)->0);
    }
    lemma_chain_field(manifest, stages, 5);
    if field(manifest, "workspace"@) is Some {
        lemma_workspace_kept(locals, field(manifest, "workspace"@)->0);
    }
    assert forall|key: Seq<char>|
        key != "package"@ && key != "dependencies"@ && key != "dev-dependencies"@ && key
            != "build-dependencies"@ && key != "target"@ && key != "workspace"@ implies #[trigger] field(
        after,
        key,
    ) == field(manifest, key) by {
        lemma_chain_elsewhere(manifest, stages, key);
    }
}

/// Whether the entry `entry` of a lock document is named as a local
/// package is.
pub open spec fn entry_names_local(locals: Seq<PackageView>, entry: Tree) -> bool {
    match field(entry, "name"@) {
        Some(Tree::String(name)) => local_index(locals, name) is Some,
        _ => false,
    }
}

/// Whether `item` is a reference to a local package in its recorded
/// version.
pub open spec fn item_refers_to_local(locals: Seq<PackageView>, item: Tree) -> bool {
    match item {
        Tree::String(text) => refers_to_local(locals, text),
        _ => false,
    }
}

/// Whether the list `after` holds every item of `before` that refers to
/// no local package, at its place and as it was.
pub open spec fn references_kept(locals: Seq<PackageView>, before: Tree, after: Tree) -> bool {
    match before {
        Tree::Array(items) => {
            &&& after is Array
            &&& after->Array_0.len() == items.len()
            &&& forall|i: int|
                0 <= i < items.len() && !item_refers_to_local(locals, #[trigger] items[i])
                    ==> after->Array_0[i] == items[i]
        },
        _ => after == before,
    }
}

/// Whether the entry `after` of a lock document is the entry `before` but
/// for what belongs to local packages: an entry that is not named as a
/// local package is, is as it was; in another, what its `dependencies` hold
/// is as it was where it refers to no local package.
pub open spec fn lock_entry_kept(locals: Seq<PackageView>, before: Tree, after: Tree) -> bool {
    if entry_names_local(locals, before) {
        match field(before, "dependencies"@) {
            Some(list) => field(after, "dependencies"@) is Some && references_kept(
                locals,
                list,
                field(after, "dependencies"@)->0,
            ),
            None => field(after, "dependencies"@) is None,
        }
    } else {
        after == before
    }
}

/// Whether the lock document `after` is `before` but for what belongs to
/// local packages.
pub open spec fn lock_kept(locals: Seq<PackageView>, before: Tree, after: Tree) -> bool {
    &&& match field(before, "package"@) {
        Some(Tree::Array(entries)) => {
            &&& field(after, "package"@) is Some
            &&& field(after, "package"@)->0 is Array
            &&& field(after, "package"@)->0->Array_0.len() == entries.len()
            &&& forall|i: int|
                0 <= i < entries.len() ==> lock_entry_kept(
                    locals,
                    #[trigger] entries[i],
                    field(after, "package"@)->0->Array_0[i],
                )
        },
        _ => field(after, "package"@) == field(before, "package"@),
    }
    &&& forall|key: Seq<char>|
        key != "package"@ ==> #[trigger] field(after, key) == field(before, key)
}

/// Masking a list of references keeps those to other packages.
pub proof fn lemma_references_kept(locals: Seq<PackageView>, list: Tree)
    ensures
        references_kept(locals, list, masked_references(locals, list).value),
{
    match list {
        Tree::Array(items) => {
            let step = |item: Tree| masked_reference(locals, item);
            let after = masked_references(locals, list).value;
            assert forall|i: int|
                0 <= i < items.len() && !item_refers_to_local(
                    locals,
                    #[trigger] items[i],
                ) implies after->Array_0[i] == items[i] by {
                lemma_sweep_item(items, step, i);
            }
            if items.len() > 0 {
                lemma_sweep_item(items, step, 0);
            }
        },
        _ => {},
    }
}

/// Masking an entry of a lock document keeps what belongs to no local
/// package.
pub proof fn lemma_lock_entry_kept(locals: Seq<PackageView>, entry: Tree)
    ensures
        lock_entry_kept(locals, entry, entry),
        lock_entry_kept(locals, entry, masked_lock_entry(locals, entry).value),
{
    lemma_keys_differ();
    let after = masked_lock_entry(locals, entry).value;
    match field(entry, "dependencies"@) {
        Some(list) => {
            lemma_references_kept(locals, list);
            lemma_with_field(entry, "version"@, placeholder());
            let versioned = with_version_masked(entry);
            lemma_with_field(versioned, "dependencies"@, masked_references(locals, list).value);
            match list {
                Tree::Array(items) => {
                    assert(references_kept(locals, list, list));
                },
                _ => {},
            }
        },
        None => {
            lemma_with_field(entry, "version"@, placeholder());
        },
    }
}

/// Masking never alters what belongs to no local package in a lock
/// document.
///
/// Whatever the document holds and whether masking fails or not, every
/// entry that is not named as a local package is stands in the masked
/// document at its place and as it was, and so does, in the other
/// entries, every reference to a package that is not local or to another
/// version than the one recorded.
pub proof fn lemma_lock_kept(locals: Seq<PackageView>, lock: Tree)
    ensures
        lock_kept(locals, lock, masked_lock(locals, lock).value),
{
    let inner = |packages: Tree| masked_lock_entries(locals, packages);
    let after = masked_lock(locals, lock).value;
    match field(lock, "package"@) {
        Some(packages) => {
            lemma_with_field(lock, "package"@, inner(packages).value);
            match packages {
                Tree::Array(entries) => {
                    let step = |entry: Tree| masked_lock_entry(locals, entry);
                    assert forall|i: int| 0 <= i < entries.len() implies lock_entry_kept(
                        locals,
                        #[trigger] entries[i],
                        field(after, "package"@)->0->Array_0[i],
                    ) by {
                        lemma_sweep_item(entries, step, i);
                        lemma_lock_entry_kept(locals, entries[i]);
                    }
                    if entries.len() > 0 {
                        lemma_sweep_item(entries, step, 0);
                    }
                },
                _ => {},
            }
        },
        None => {},
    }
    assert forall|key: Seq<char>| key != "package"@ implies #[trigger] field(after, key) == field(
        lock,
        key,
    ) by {
        lemma_in_field_elsewhere(lock, "package"@, inner, key);
    }
}

/// Every manifest keeps itself.
pub proof fn lemma_manifest_keeps_itself(locals: Seq<PackageView>, manifest: Tree)
    ensures
        manifest_kept(locals, manifest, manifest),
{
    lemma_tables_kept(locals, manifest);
    if field(manifest, "target"@) is Some {
        lemma_targets_kept(locals, field(manifest, "target"@)->0);
    }
    if field(manifest, "workspace"@) is Some {
        lemma_workspace_kept(locals, field(manifest, "workspace"@)->0);
    }
}

/// Every lock document keeps itself.
pub proof fn lemma_lock_keeps_itself(locals: Seq<PackageView>, lock: Tree)
    ensures
        lock_kept(locals, lock, lock),
{
    match field(lock, "package"@) {
        Some(Tree::Array(entries)) => {
            assert forall|i: int| 0 <= i < entries.len() implies lock_entry_kept(
                locals,
                #[trigger] entries[i],
                entries[i],
            ) by {
                lemma_lock_entry_kept(locals, entries[i]);
            }
        },
        _ => {},
    }
}

/// Whether the documents of `run` keep what in `manifests` and `lock`
/// belongs to no package of `locals`.
pub open spec fn run_kept(
    locals: Seq<PackageView>,
    manifests: Seq<Tree>,
    lock: Option<Tree>,
    run: Run,
) -> bool {
    &&& run.manifests.len() == manifests.len()
    &&& forall|i: int|
        0 <= i < manifests.len() ==> manifest_kept(
            locals,
            #[trigger] manifests[i],
            run.manifests[i],
        )
    &&& match lock {
        Some(document) => run.lock is Some && lock_kept(locals, document, run.lock->0),
        None => run.lock is None,
    }
}

/// A run never alters what belongs to a package that is not among the
/// local packages that the manifests declare.
///
/// Whether the run succeeds or fails, every dependency of every manifest
/// that names no local package, every entry of the lock document that is
/// not named as a local package is, and every reference to something else
/// than a local package in its recorded version is after the run as it was
/// before.
pub proof fn lemma_run_kept(manifests: Seq<Tree>, lock: Option<Tree>)
    ensures
        run_kept(declared_packages(manifests), manifests, lock, run_of(manifests, lock)),
{
    let locals = declared_packages(manifests);
    let run = run_of(manifests, lock);
    let step = |manifest: Tree| masked_manifest(locals, manifest);
    if lock is Some {
        lemma_lock_keeps_itself(locals, lock->0);
        lemma_lock_kept(locals, lock->0);
    }
    assert forall|i: int| 0 <= i < manifests.len() implies manifest_kept(
        locals,
        #[trigger] manifests[i],
        run.manifests[i],
    ) by {
        lemma_manifest_keeps_itself(locals, manifests[i]);
        lemma_manifest_kept(locals, manifests[i]);
        lemma_sweep_item(manifests, step, i);
    }
    if manifests.len() > 0 {
        lemma_sweep_item(manifests, step, 0);
    }
}

} // verus!
