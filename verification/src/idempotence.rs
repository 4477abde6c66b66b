//! Masking what is masked already changes nothing.
//!
//! A second run on the documents of a first finds the same local packages,
//! each now recorded in the placeholder version. It leaves every document as
//! the first run left it ([`lemma_run_masked_once`]) unless a version that
//! the first run had no reason to mask is covered by the placeholder: such a
//! version is masked only by the second. [`settled`] says of the documents
//! handed to the first run that there is no such version.
//!
//! The lemmas on the way compare masking with one list of local packages,
//! `first`, to masking what it leaves with another, `second`. With the same
//! list twice they say that masking a document again with the local
//! packages it was masked with changes nothing
//! ([`lemma_manifest_masked_once`], [`lemma_lock_masked_once`]).

use vstd::prelude::*;
use crate::discovery::{
    declared_package, declared_packages, discovered, names_declared_once, repeats_name,
};
use crate::document::{field, lemma_with_field, Tree};
use crate::error::{FaultView, MaskError, RunFaultView};
use crate::lockfile::{
    lock_entry_verdict, masked_lock, masked_lock_entries, masked_lock_entry, masked_reference,
    masked_reference_text, masked_references, reference, refers_to_local,
};
use crate::manifest::{
    dependency_verdict, masked_dependency, masked_dependency_table, masked_manifest,
    masked_manifests, masked_tables, masked_target, masked_target_table, masked_workspace,
    named_verdict, placeholder, with_version_masked, CONST_VERSION,
};
use crate::package::{is_first_named, lemma_local_index, local_index, recorded_version, PackageView};
use crate::stages::{
    lemma_keys_differ, lemma_manifest_chain, lemma_tables_chain, lemma_workspace_chain,
    manifest_stages, own_version_step, tables_stages, workspace_stages,
};
use crate::sweep::{
    chain, in_field, lemma_chain_again, lemma_chain_elsewhere, lemma_in_field_again, lemma_sweep,
    lemma_sweep_again,
};
use crate::text::{lemma_prefix_len, prefix_len, spaceless, stops_at};
use crate::version::{covers_spec, decimal, major_minor, number, unsigned};
use crate::run_of;

verus! {

/// `locals` with the placeholder as the version of each.
pub open spec fn relabeled(locals: Seq<PackageView>) -> Seq<PackageView> {
    Seq::new(
        locals.len(),
        |i: int| PackageView { name: locals[i].name, version: CONST_VERSION@ },
    )
}

/// A name stands in `relabeled(locals)` where it stands in `locals`.
pub proof fn lemma_relabeled_index(locals: Seq<PackageView>, name: Seq<char>)
    ensures
        local_index(relabeled(locals), name) == local_index(locals, name),
        recorded_version(relabeled(locals), name) == if recorded_version(locals, name) is Some {
            Some(CONST_VERSION@)
        } else {
            None
        },
{
    let again = relabeled(locals);
    lemma_local_index(locals, name);
    lemma_local_index(again, name);
    match local_index(locals, name) {
        Some(at) => {
            assert(is_first_named(again, name, at)) by {
                assert forall|i: int| 0 <= i < at implies (#[trigger] again[i]).name != name by {
                    assert(locals[i].name != name);
                }
            }
        },
        None => {
            if local_index(again, name) is Some {
                let at = local_index(again, name)->0;
                assert(locals[at].name != name);
            }
        },
    }
}

/// The placeholder is version 0.0 of something.
pub proof fn lemma_placeholder_version()
    ensures
        major_minor(CONST_VERSION@) == Some((0u32, 0u32)),
        covers_spec(CONST_VERSION@, CONST_VERSION@) == Ok::<bool, MaskError>(true),
{
    reveal_strlit("0.0.1");
    reveal_strlit("*");
    let text = CONST_VERSION@;
    assert(text =~= seq!['0', '.', '0', '.', '1']);
    assert(stops_at(text, '.', 1));
    lemma_prefix_len(text, '.');
    let rest = text.skip(2);
    assert(rest =~= seq!['0', '.', '1']);
    assert(stops_at(rest, '.', 1));
    lemma_prefix_len(rest, '.');
    let zero = seq!['0'];
    assert(text.take(1) =~= zero);
    assert(rest.take(1) =~= zero);
    assert(unsigned(zero) == zero);
    assert(decimal(zero) == 0) by {
        reveal_with_fuel(decimal, 2);
        assert(zero.drop_last() =~= Seq::<char>::empty());
    }
    assert(number(zero) == Some(0u32));
    assert(text.len() != "*"@.len());
}

/// What the recorded version of a package decides without failing, the
/// placeholder decides without failing.
pub proof fn lemma_relabeled_verdict(locals: Seq<PackageView>, name: Seq<char>, version: Tree)
    ensures
        named_verdict(locals, name, version) is Ok ==> named_verdict(
            relabeled(locals),
            name,
            version,
        ) is Ok,
        recorded_version(locals, name) is Some ==> named_verdict(
            relabeled(locals),
            name,
            placeholder(),
        ) == Ok::<bool, FaultView>(true),
        recorded_version(locals, name) is None ==> named_verdict(relabeled(locals), name, version)
            == Ok::<bool, FaultView>(false),
{
    lemma_relabeled_index(locals, name);
    lemma_placeholder_version();
}

/// Whether masking with `second` leaves the dependency `entry` as masking
/// with `first` has left it: where only `second` asks for the placeholder,
/// the entry carries it already.
pub open spec fn dependency_agrees(
    first: Seq<PackageView>,
    second: Seq<PackageView>,
    entry: (Seq<char>, Tree),
) -> bool {
    dependency_verdict(first, entry.0, entry.1) == Ok::<bool, FaultView>(false)
        && dependency_verdict(second, entry.0, entry.1) == Ok::<bool, FaultView>(true)
        ==> field(entry.1, "version"@) == Some(placeholder())
}

/// Whether every entry of the dependency table `table` agrees.
pub open spec fn table_agrees(
    first: Seq<PackageView>,
    second: Seq<PackageView>,
    table: Tree,
) -> bool {
    table is Table ==> forall|i: int|
        0 <= i < table->Table_0.len() ==> dependency_agrees(
            first,
            second,
            #[trigger] table->Table_0[i],
        )
}

/// Whether the dependency table that `tree` holds under `name` agrees.
pub open spec fn table_under_agrees(
    first: Seq<PackageView>,
    second: Seq<PackageView>,
    tree: Tree,
    name: Seq<char>,
) -> bool {
    field(tree, name) is Some ==> table_agrees(first, second, field(tree, name)->0)
}

/// Whether the three dependency tables of `tree` agree.
pub open spec fn tables_agree(
    first: Seq<PackageView>,
    second: Seq<PackageView>,
    tree: Tree,
) -> bool {
    &&& table_under_agrees(first, second, tree, "dependencies"@)
    &&& table_under_agrees(first, second, tree, "dev-dependencies"@)
    &&& table_under_agrees(first, second, tree, "build-dependencies"@)
}

/// Whether the dependency tables of every target agree.
pub open spec fn targets_agree(
    first: Seq<PackageView>,
    second: Seq<PackageView>,
    targets: Tree,
) -> bool {
    targets is Table ==> forall|i: int|
        0 <= i < targets->Table_0.len() ==> tables_agree(
            first,
            second,
            (#[trigger] targets->Table_0[i]).1,
        )
}

/// Whether every dependency that masking reaches in `manifest` agrees.
pub open spec fn manifest_agrees(
    first: Seq<PackageView>,
    second: Seq<PackageView>,
    manifest: Tree,
) -> bool {
    &&& tables_agree(first, second, manifest)
    &&& field(manifest, "target"@) is Some ==> targets_agree(
        first,
        second,
        field(manifest, "target"@)->0,
    )
    &&& field(manifest, "workspace"@) is Some ==> table_under_agrees(
        first,
        second,
        field(manifest, "workspace"@)->0,
        "dependencies"@,
    )
}

/// A dependency that agrees is left by `second` as `first` has left it.
pub proof fn lemma_dependency_again(
    first: Seq<PackageView>,
    second: Seq<PackageView>,
    entry: (Seq<char>, Tree),
)
    requires
        masked_dependency(first, entry).error is None,
        dependency_agrees(first, second, entry),
    ensures
        masked_dependency(second, masked_dependency(first, entry).value).value
            == masked_dependency(first, entry).value,
        second == relabeled(first) ==> masked_dependency(
            second,
            masked_dependency(first, entry).value,
        ).error is None,
{
    lemma_keys_differ();
    lemma_with_field(entry.1, "version"@, placeholder());
    if second == relabeled(first) {
        match field(entry.1, "version"@) {
            Some(version) => match field(entry.1, "package"@) {
                None => {
                    lemma_relabeled_verdict(first, entry.0, version);
                },
                Some(Tree::String(name)) => {
                    lemma_relabeled_verdict(first, name, version);
                },
                Some(_) => {},
            },
            None => {},
        }
    }
}

/// A dependency table that agrees is left by `second` as `first` has left
/// it.
pub proof fn lemma_table_again(first: Seq<PackageView>, second: Seq<PackageView>, table: Tree)
    requires
        masked_dependency_table(first, table).error is None,
        table_agrees(first, second, table),
    ensures
        masked_dependency_table(second, masked_dependency_table(first, table).value).value
            == masked_dependency_table(first, table).value,
        second == relabeled(first) ==> masked_dependency_table(
            second,
            masked_dependency_table(first, table).value,
        ).error is None,
{
    match table {
        Tree::Table(entries) => {
            let once = |entry: (Seq<char>, Tree)| masked_dependency(first, entry);
            let again = |entry: (Seq<char>, Tree)| masked_dependency(second, entry);
            assert forall|i: int|
                0 <= i < entries.len() && once(entries[i]).error is None implies (#[trigger] again(
                once(entries[i]).value,
            )).value == once(entries[i]).value && (second == relabeled(first) ==> again(
                once(entries[i]).value,
            ).error is None) by {
                assert(dependency_agrees(first, second, table->Table_0[i]));
                lemma_dependency_again(first, second, entries[i]);
            }
            lemma_sweep_again(entries, once, again);
        },
        _ => {},
    }
}

/// Dependency tables that agree are left by `second` as `first` has left
/// them.
pub proof fn lemma_tables_again(first: Seq<PackageView>, second: Seq<PackageView>, tree: Tree)
    requires
        masked_tables(first, tree).error is None,
        tables_agree(first, second, tree),
    ensures
        masked_tables(second, masked_tables(first, tree).value).value == masked_tables(
            first,
            tree,
        ).value,
        second == relabeled(first) ==> masked_tables(
            second,
            masked_tables(first, tree).value,
        ).error is None,
{
    let firsts = tables_stages(first);
    let seconds = tables_stages(second);
    lemma_tables_chain(first, tree);
    lemma_tables_chain(second, masked_tables(first, tree).value);
    assert forall|i: int|
        0 <= i < firsts.len() && field(tree, (#[trigger] firsts[i]).key) is Some && (
        firsts[i].inner)(field(tree, firsts[i].key)->0).error is None implies (seconds[i].inner)(
        (firsts[i].inner)(field(tree, firsts[i].key)->0).value,
    ).value == (firsts[i].inner)(field(tree, firsts[i].key)->0).value && (second == relabeled(
        first,
    ) ==> (seconds[i].inner)((firsts[i].inner)(field(tree, firsts[i].key)->0).value).error
        is None) by {
        assert(table_under_agrees(first, second, tree, firsts[i].key));
        lemma_table_again(first, second, field(tree, firsts[i].key)->0);
    }
    lemma_chain_again(tree, firsts, seconds);
}

/// A `target` table whose dependency tables agree is left by `second` as
/// `first` has left it.
pub proof fn lemma_targets_again(first: Seq<PackageView>, second: Seq<PackageView>, targets: Tree)
    requires
        masked_target_table(first, targets).error is None,
        targets_agree(first, second, targets),
    ensures
        masked_target_table(second, masked_target_table(first, targets).value).value
            == masked_target_table(first, targets).value,
        second == relabeled(first) ==> masked_target_table(
            second,
            masked_target_table(first, targets).value,
        ).error is None,
{
    match targets {
        Tree::Table(entries) => {
            let once = |entry: (Seq<char>, Tree)| masked_target(first, entry);
            let again = |entry: (Seq<char>, Tree)| masked_target(second, entry);
            assert forall|i: int|
                0 <= i < entries.len() && once(entries[i]).error is None implies (#[trigger] again(
                once(entries[i]).value,
            )).value == once(entries[i]).value && (second == relabeled(first) ==> again(
                once(entries[i]).value,
            ).error is None) by {
                assert(tables_agree(first, second, targets->Table_0[i].1));
                lemma_tables_again(first, second, entries[i].1);
            }
            lemma_sweep_again(entries, once, again);
        },
        _ => {},
    }
}

/// A `workspace` table whose dependency table agrees is left by `second`
/// as `first` has left it.
pub proof fn lemma_workspace_again(
    first: Seq<PackageView>,
    second: Seq<PackageView>,
    workspace: Tree,
)
    requires
        masked_workspace(first, workspace).error is None,
        table_under_agrees(first, second, workspace, "dependencies"@),
    ensures
        masked_workspace(second, masked_workspace(first, workspace).value).value
            == masked_workspace(first, workspace).value,
        second == relabeled(first) ==> masked_workspace(
            second,
            masked_workspace(first, workspace).value,
        ).error is None,
{
    let firsts = workspace_stages(first);
    let seconds = workspace_stages(second);
    lemma_workspace_chain(first, workspace);
    lemma_workspace_chain(second, masked_workspace(first, workspace).value);
    assert forall|i: int|
        0 <= i < firsts.len() && field(workspace, (#[trigger] firsts[i]).key) is Some && (
        firsts[i].inner)(field(workspace, firsts[i].key)->0).error is None implies (
    seconds[i].inner)((firsts[i].inner)(field(workspace, firsts[i].key)->0).value).value == (
    firsts[i].inner)(field(workspace, firsts[i].key)->0).value && (second == relabeled(first) ==> (
    seconds[i].inner)((firsts[i].inner)(field(workspace, firsts[i].key)->0).value).error
        is None) by {
        let held = field(workspace, firsts[i].key)->0;
        if i == 0 {
            lemma_with_field(held, "version"@, placeholder());
        } else {
            lemma_table_again(first, second, held);
        }
    }
    lemma_chain_again(workspace, firsts, seconds);
}

/// A manifest whose dependencies agree is left by `second` as `first` has
/// left it.
pub proof fn lemma_manifest_again(
    first: Seq<PackageView>,
    second: Seq<PackageView>,
    manifest: Tree,
)
    requires
        masked_manifest(first, manifest).error is None,
        manifest_agrees(first, second, manifest),
    ensures
        masked_manifest(second, masked_manifest(first, manifest).value).value == masked_manifest(
            first,
            manifest,
        ).value,
        second == relabeled(first) ==> masked_manifest(
            second,
            masked_manifest(first, manifest).value,
        ).error is None,
{
    let firsts = manifest_stages(first);
    let seconds = manifest_stages(second);
    lemma_manifest_chain(first, manifest);
    lemma_manifest_chain(second, masked_manifest(first, manifest).value);
    assert forall|i: int|
        0 <= i < firsts.len() && field(manifest, (#[trigger] firsts[i]).key) is Some && (
        firsts[i].inner)(field(manifest, firsts[i].key)->0).error is None implies (
    seconds[i].inner)((firsts[i].inner)(field(manifest, firsts[i].key)->0).value).value == (
    firsts[i].inner)(field(manifest, firsts[i].key)->0).value && (second == relabeled(first) ==> (
    seconds[i].inner)((firsts[i].inner)(field(manifest, firsts[i].key)->0).value).error
        is None) by {
        let held = field(manifest, firsts[i].key)->0;
        if i == 0 {
            lemma_with_field(held, "version"@, placeholder());
        } else if i <= 3 {
            assert(table_under_agrees(first, second, manifest, firsts[i].key));
            lemma_table_again(first, second, held);
        } else if i == 4 {
            lemma_targets_again(first, second, held);
        } else {
            lemma_workspace_again(first, second, held);
        }
    }
    lemma_chain_again(manifest, firsts, seconds);
}

/// Masking a manifest a second time with the same local packages changes
/// nothing, where the first time did not fail.
pub proof fn lemma_manifest_masked_once(locals: Seq<PackageView>, manifest: Tree)
    requires
        masked_manifest(locals, manifest).error is None,
    ensures
        masked_manifest(locals, masked_manifest(locals, manifest).value).value == masked_manifest(
            locals,
            manifest,
        ).value,
{
    lemma_manifest_again(locals, locals, manifest);
}

/// Whether masking with `second` leaves the reference `item` as masking
/// with `first` has left it: where only `second` takes it for a reference
/// to a local package, it is masked into itself.
pub open spec fn reference_agrees(
    first: Seq<PackageView>,
    second: Seq<PackageView>,
    item: Tree,
) -> bool {
    match item {
        Tree::String(text) => !refers_to_local(first, text) && refers_to_local(second, text)
            ==> masked_reference_text(text) == text,
        _ => true,
    }
}

/// Whether every reference of `list` agrees.
pub open spec fn references_agree(
    first: Seq<PackageView>,
    second: Seq<PackageView>,
    list: Tree,
) -> bool {
    list is Array ==> forall|i: int|
        0 <= i < list->Array_0.len() ==> reference_agrees(
            first,
            second,
            #[trigger] list->Array_0[i],
        )
}

/// Whether masking with `second` leaves the entry `entry` of a lock
/// document as masking with `first` has left it: where only `second` takes
/// it for a local package, it is masked already; and where `first` takes
/// it for one, its references agree.
pub open spec fn lock_entry_agrees(
    first: Seq<PackageView>,
    second: Seq<PackageView>,
    entry: Tree,
) -> bool {
    &&& lock_entry_verdict(first, entry) == Ok::<bool, FaultView>(false) && lock_entry_verdict(
        second,
        entry,
    ) == Ok::<bool, FaultView>(true) ==> masked_lock_entry(second, entry).value == entry
    &&& lock_entry_verdict(first, entry) == Ok::<bool, FaultView>(true) && field(
        entry,
        "dependencies"@,
    ) is Some ==> references_agree(first, second, field(entry, "dependencies"@)->0)
}

/// Whether masking with `second` can read the entry `entry` of a lock
/// document where only `second` takes it for a local package.
pub open spec fn lock_entry_readable(
    first: Seq<PackageView>,
    second: Seq<PackageView>,
    entry: Tree,
) -> bool {
    lock_entry_verdict(first, entry) == Ok::<bool, FaultView>(false) && lock_entry_verdict(
        second,
        entry,
    ) == Ok::<bool, FaultView>(true) ==> masked_lock_entry(second, entry).error is None
}

/// Whether every entry of `lock` agrees.
pub open spec fn lock_agrees(
    first: Seq<PackageView>,
    second: Seq<PackageView>,
    lock: Tree,
) -> bool {
    field(lock, "package"@) is Some && field(lock, "package"@)->0 is Array ==> forall|i: int|
        0 <= i < field(lock, "package"@)->0->Array_0.len() ==> lock_entry_agrees(
            first,
            second,
            #[trigger] field(lock, "package"@)->0->Array_0[i],
        )
}

/// A masked reference is masked into itself.
pub proof fn lemma_reference_masked_once(text: Seq<char>)
    ensures
        masked_reference_text(masked_reference_text(text)) == masked_reference_text(text),
{
    reveal_strlit(" ");
    lemma_prefix_len(text, ' ');
    let name = prefix_len(text, ' ');
    let once = masked_reference_text(text);
    assert(stops_at(once, ' ', name)) by {
        assert forall|i: int| 0 <= i < name implies once[i] != ' ' by {
            assert(once[i] == text[i]);
        }
        assert(once[name] == " "@[0]);
    }
    lemma_prefix_len(once, ' ');
    assert(once.take(name) =~= text.take(name));
}

/// A reference that agrees is left by `second` as `first` has left it.
pub proof fn lemma_reference_again(first: Seq<PackageView>, second: Seq<PackageView>, item: Tree)
    requires
        masked_reference(first, item).error is None,
        reference_agrees(first, second, item),
    ensures
        masked_reference(second, masked_reference(first, item).value).value == masked_reference(
            first,
            item,
        ).value,
        masked_reference(second, masked_reference(first, item).value).error is None,
{
    match item {
        Tree::String(text) => {
            lemma_reference_masked_once(text);
        },
        _ => {},
    }
}

/// A list of references that agree is left by `second` as `first` has left
/// it.
pub proof fn lemma_references_again(first: Seq<PackageView>, second: Seq<PackageView>, list: Tree)
    requires
        masked_references(first, list).error is None,
        references_agree(first, second, list),
    ensures
        masked_references(second, masked_references(first, list).value).value
            == masked_references(first, list).value,
        masked_references(second, masked_references(first, list).value).error is None,
{
    match list {
        Tree::Array(items) => {
            let once = |item: Tree| masked_reference(first, item);
            let again = |item: Tree| masked_reference(second, item);
            assert forall|i: int|
                0 <= i < items.len() && once(items[i]).error is None implies (#[trigger] again(
                once(items[i]).value,
            )).value == once(items[i]).value && again(once(items[i]).value).error is None by {
                assert(reference_agrees(first, second, list->Array_0[i]));
                lemma_reference_again(first, second, items[i]);
            }
            lemma_sweep_again(items, once, again);
        },
        _ => {},
    }
}

/// An entry of a lock document that agrees is left by `second` as `first`
/// has left it.
pub proof fn lemma_lock_entry_again(first: Seq<PackageView>, second: Seq<PackageView>, entry: Tree)
    requires
        masked_lock_entry(first, entry).error is None,
        lock_entry_agrees(first, second, entry),
    ensures
        masked_lock_entry(second, masked_lock_entry(first, entry).value).value
            == masked_lock_entry(first, entry).value,
        second == relabeled(first) && lock_entry_readable(first, second, entry)
            ==> masked_lock_entry(second, masked_lock_entry(first, entry).value).error is None,
{
    lemma_keys_differ();
    if second == relabeled(first) {
        match (field(entry, "name"@), field(entry, "version"@)) {
            (Some(Tree::String(name)), Some(version)) => {
                lemma_relabeled_verdict(first, name, version);
            },
            _ => {},
        }
    }
    if lock_entry_verdict(first, entry) == Ok::<bool, FaultView>(true) {
        let versioned = with_version_masked(entry);
        let once = masked_lock_entry(first, entry).value;
        let inner = |list: Tree| masked_references(first, list);
        let inner_again = |list: Tree| masked_references(second, list);
        assert(once == in_field(versioned, "dependencies"@, inner).value);
        lemma_with_field(entry, "version"@, placeholder());
        match field(versioned, "dependencies"@) {
            Some(list) => {
                lemma_with_field(versioned, "dependencies"@, inner(list).value);
                lemma_references_again(first, second, list);
            },
            None => {},
        }
        assert(field(once, "version"@) == Some(placeholder()));
        lemma_with_field(once, "version"@, placeholder());
        assert(with_version_masked(once) == once);
        lemma_in_field_again(versioned, "dependencies"@, inner, inner_again);
    }
}

/// Whether masking with `second` can read every entry of the list
/// `packages` that only `second` takes for a local package.
pub open spec fn entries_readable(
    first: Seq<PackageView>,
    second: Seq<PackageView>,
    packages: Tree,
) -> bool {
    packages is Array ==> forall|i: int|
        0 <= i < packages->Array_0.len() ==> lock_entry_readable(
            first,
            second,
            #[trigger] packages->Array_0[i],
        )
}

/// Whether masking with `second` can read every entry of `lock` that only
/// `second` takes for a local package.
pub open spec fn lock_readable(
    first: Seq<PackageView>,
    second: Seq<PackageView>,
    lock: Tree,
) -> bool {
    field(lock, "package"@) is Some ==> entries_readable(
        first,
        second,
        field(lock, "package"@)->0,
    )
}

/// The list of packages of a lock document is left by `second` as `first`
/// has left it, where its entries agree.
pub proof fn lemma_lock_entries_again(
    first: Seq<PackageView>,
    second: Seq<PackageView>,
    packages: Tree,
)
    requires
        masked_lock_entries(first, packages).error is None,
        packages is Array ==> forall|i: int|
            0 <= i < packages->Array_0.len() ==> lock_entry_agrees(
                first,
                second,
                #[trigger] packages->Array_0[i],
            ),
    ensures
        masked_lock_entries(second, masked_lock_entries(first, packages).value).value
            == masked_lock_entries(first, packages).value,
        second == relabeled(first) && entries_readable(first, second, packages)
            ==> masked_lock_entries(second, masked_lock_entries(first, packages).value).error
            is None,
{
    match packages {
        Tree::Array(entries) => {
            let once = |entry: Tree| masked_lock_entry(first, entry);
            let again = |entry: Tree| masked_lock_entry(second, entry);
            assert forall|i: int|
                0 <= i < entries.len() && once(entries[i]).error is None implies (#[trigger] again(
                once(entries[i]).value,
            )).value == once(entries[i]).value && (second == relabeled(first) && entries_readable(
                first,
                second,
                packages,
            ) ==> again(once(entries[i]).value).error is None) by {
                assert(lock_entry_agrees(first, second, packages->Array_0[i]));
                if entries_readable(first, second, packages) {
                    assert(lock_entry_readable(first, second, packages->Array_0[i]));
                }
                lemma_lock_entry_again(first, second, entries[i]);
            }
            lemma_sweep_again(entries, once, again);
        },
        _ => {},
    }
}

/// A lock document that agrees is left by `second` as `first` has left it.
pub proof fn lemma_lock_again(first: Seq<PackageView>, second: Seq<PackageView>, lock: Tree)
    requires
        masked_lock(first, lock).error is None,
        lock_agrees(first, second, lock),
    ensures
        masked_lock(second, masked_lock(first, lock).value).value == masked_lock(first, lock).value,
        second == relabeled(first) && lock_readable(first, second, lock) ==> masked_lock(
            second,
            masked_lock(first, lock).value,
        ).error is None,
{
    let inner = |packages: Tree| masked_lock_entries(first, packages);
    let inner_again = |packages: Tree| masked_lock_entries(second, packages);
    match field(lock, "package"@) {
        Some(packages) => {
            lemma_lock_entries_again(first, second, packages);
        },
        None => {},
    }
    lemma_in_field_again(lock, "package"@, inner, inner_again);
}

/// Masking a lock document a second time with the same local packages
/// changes nothing, where the first time did not fail.
pub proof fn lemma_lock_masked_once(locals: Seq<PackageView>, lock: Tree)
    requires
        masked_lock(locals, lock).error is None,
    ensures
        masked_lock(locals, masked_lock(locals, lock).value).value == masked_lock(
            locals,
            lock,
        ).value,
{
    lemma_lock_again(locals, locals, lock);
}

/// The package `package` with the placeholder as its version.
pub open spec fn relabeled_package(package: Option<PackageView>) -> Option<PackageView> {
    match package {
        Some(package) => Some(PackageView { name: package.name, version: CONST_VERSION@ }),
        None => None,
    }
}

/// A masked manifest declares the package that it declared before, with
/// the placeholder as its version.
pub proof fn lemma_declared_after_masking(locals: Seq<PackageView>, manifest: Tree)
    ensures
        declared_package(masked_manifest(locals, manifest).value) == relabeled_package(
            declared_package(manifest),
        ),
{
    lemma_keys_differ();
    lemma_manifest_chain(locals, manifest);
    let stages = manifest_stages(locals);
    let own = in_field(manifest, "package"@, stages[0].inner);
    let rest = stages.drop_first();
    assert(chain(manifest, stages) == chain(own.value, rest)) by {
        reveal_with_fuel(chain, 2);
    }
    assert forall|i: int| 0 <= i < rest.len() implies (#[trigger] rest[i]).key != "package"@ by {
        assert(rest[i] == stages[i + 1]);
    }
    lemma_chain_elsewhere(own.value, rest, "package"@);
    match field(manifest, "package"@) {
        Some(package) => {
            lemma_with_field(manifest, "package"@, own_version_step(package).value);
            lemma_with_field(package, "version"@, placeholder());
        },
        None => {},
    }
}

/// Each of `manifests` after masking.
pub open spec fn each_masked(locals: Seq<PackageView>, manifests: Seq<Tree>) -> Seq<Tree> {
    Seq::new(manifests.len(), |i: int| masked_manifest(locals, manifests[i]).value)
}

/// Masked manifests declare the packages that they declared before, each
/// with the placeholder as its version.
pub proof fn lemma_declared_after_masking_all(locals: Seq<PackageView>, manifests: Seq<Tree>)
    ensures
        declared_packages(each_masked(locals, manifests)) == relabeled(
            declared_packages(manifests),
        ),
    decreases manifests.len(),
{
    let masked = each_masked(locals, manifests);
    if manifests.len() == 0 {
        assert(relabeled(declared_packages(manifests)) =~= Seq::empty());
    } else {
        let before = manifests.drop_last();
        lemma_declared_after_masking_all(locals, before);
        lemma_declared_after_masking(locals, manifests.last());
        assert(masked.drop_last() =~= each_masked(locals, before));
        match declared_package(manifests.last()) {
            Some(package) => {
                assert(relabeled(declared_packages(before).push(package)) =~= relabeled(
                    declared_packages(before),
                ).push(PackageView { name: package.name, version: CONST_VERSION@ }));
            },
            None => {},
        }
    }
}

/// Masking makes no manifest repeat a name.
pub proof fn lemma_declared_once_after_masking(locals: Seq<PackageView>, manifests: Seq<Tree>)
    requires
        names_declared_once(manifests),
    ensures
        names_declared_once(each_masked(locals, manifests)),
{
    let masked = each_masked(locals, manifests);
    assert forall|at: int| 0 <= at < masked.len() implies !repeats_name(masked, at) by {
        assert(!repeats_name(manifests, at));
        lemma_declared_after_masking(locals, manifests[at]);
        lemma_declared_after_masking_all(locals, manifests.take(at));
        assert(masked.take(at) =~= each_masked(locals, manifests.take(at)));
        if declared_package(manifests[at]) is Some {
            lemma_relabeled_index(
                declared_packages(manifests.take(at)),
                declared_package(manifests[at])->0.name,
            );
        }
    }
}

/// Where no name holds a space, every reference agrees with masking
/// under the placeholder: one to a package in the placeholder version is
/// masked into itself.
pub proof fn lemma_spaceless_reference(locals: Seq<PackageView>, item: Tree)
    requires
        forall|i: int| 0 <= i < locals.len() ==> spaceless((#[trigger] locals[i]).name),
    ensures
        reference_agrees(locals, relabeled(locals), item),
{
    let again = relabeled(locals);
    match item {
        Tree::String(text) => {
            if !refers_to_local(locals, text) && refers_to_local(again, text) {
                reveal_strlit(" ");
                let i = choose|i: int|
                    0 <= i < again.len() && reference(#[trigger] again[i]) == text;
                let name = locals[i].name;
                assert(spaceless(name));
                assert(text == name + " "@ + CONST_VERSION@);
                assert(stops_at(text, ' ', name.len() as int)) by {
                    assert forall|j: int| 0 <= j < name.len() implies text[j] != ' ' by {
                        assert(text[j] == name[j]);
                    }
                    assert(text[name.len() as int] == " "@[0]);
                }
                lemma_prefix_len(text, ' ');
                assert(text.take(name.len() as int) =~= name);
            }
        },
        _ => {},
    }
}

/// Whether a run on `manifests` and `lock` leaves nothing for a second run
/// to mask: every dependency on a local package that the placeholder covers
/// and the recorded version of the package does not, in a manifest or in
/// the lock document, carries the placeholder already; and so does every
/// reference of a local package to another in the placeholder version.
pub open spec fn settled(manifests: Seq<Tree>, lock: Option<Tree>) -> bool {
    let locals = declared_packages(manifests);
    &&& forall|i: int|
        0 <= i < manifests.len() ==> manifest_agrees(
            locals,
            relabeled(locals),
            #[trigger] manifests[i],
        )
    &&& lock is Some && field(lock->0, "package"@) is Some && field(lock->0, "package"@)->0
        is Array ==> forall|i: int|
        0 <= i < field(lock->0, "package"@)->0->Array_0.len() ==> lock_entry_agrees(
            locals,
            relabeled(locals),
            #[trigger] field(lock->0, "package"@)->0->Array_0[i],
        )
}

/// After a run that succeeded, the manifests declare the packages that
/// they declared before, each in the placeholder version.
pub proof fn lemma_rediscovered(manifests: Seq<Tree>, lock: Option<Tree>)
    requires
        run_of(manifests, lock).outcome is Ok,
    ensures
        masked_manifests(declared_packages(manifests), manifests).error is None,
        discovered(run_of(manifests, lock).manifests) == Ok::<Seq<PackageView>, RunFaultView>(
            relabeled(declared_packages(manifests)),
        ),
{
    let locals = declared_packages(manifests);
    let once = |manifest: Tree| masked_manifest(locals, manifest);
    let first = run_of(manifests, lock);
    assert(names_declared_once(manifests)) by {
        if !names_declared_once(manifests) {
            assert(first.outcome is Err);
        }
    }
    assert(masked_manifests(locals, manifests).error is None);
    lemma_sweep(manifests, once);
    assert(first.manifests =~= each_masked(locals, manifests));
    lemma_declared_after_masking_all(locals, manifests);
    lemma_declared_once_after_masking(locals, manifests);
}

/// Masking is idempotent: a second run on the documents that a first run
/// has masked leaves every one of them as it is.
///
/// This holds of a first run that succeeded on documents that are
/// [`settled`]. A dependency that only the placeholder covers is masked
/// by the second run and not by the first.
pub proof fn lemma_run_masked_once(manifests: Seq<Tree>, lock: Option<Tree>)
    requires
        run_of(manifests, lock).outcome is Ok,
        settled(manifests, lock),
    ensures
        run_of(run_of(manifests, lock).manifests, run_of(manifests, lock).lock).manifests
            == run_of(manifests, lock).manifests,
        run_of(run_of(manifests, lock).manifests, run_of(manifests, lock).lock).lock == run_of(
            manifests,
            lock,
        ).lock,
{
    let locals = declared_packages(manifests);
    let again = relabeled(locals);
    let once = |manifest: Tree| masked_manifest(locals, manifest);
    let twice = |manifest: Tree| masked_manifest(again, manifest);
    lemma_rediscovered(manifests, lock);
    assert forall|i: int|
        0 <= i < manifests.len() && once(manifests[i]).error is None implies (#[trigger] twice(
        once(manifests[i]).value,
    )).value == once(manifests[i]).value by {
        lemma_manifest_again(locals, again, manifests[i]);
    }
    lemma_sweep_again(manifests, once, twice);
    match lock {
        Some(document) => {
            lemma_lock_again(locals, again, document);
        },
        None => {},
    }
}

/// Whether a second run can read every entry of the lock document that
/// only it takes for a local package.
pub open spec fn readable(manifests: Seq<Tree>, lock: Option<Tree>) -> bool {
    lock is Some ==> lock_readable(
        declared_packages(manifests),
        relabeled(declared_packages(manifests)),
        lock->0,
    )
}

/// A second run on the documents that a first run has masked succeeds,
/// where the first succeeded on documents that are [`settled`] and
/// [`readable`].
pub proof fn lemma_second_run_succeeds(manifests: Seq<Tree>, lock: Option<Tree>)
    requires
        run_of(manifests, lock).outcome is Ok,
        settled(manifests, lock),
        readable(manifests, lock),
    ensures
        run_of(run_of(manifests, lock).manifests, run_of(manifests, lock).lock).outcome is Ok,
{
    let locals = declared_packages(manifests);
    let again = relabeled(locals);
    let once = |manifest: Tree| masked_manifest(locals, manifest);
    let twice = |manifest: Tree| masked_manifest(again, manifest);
    lemma_rediscovered(manifests, lock);
    assert forall|i: int|
        0 <= i < manifests.len() && once(manifests[i]).error is None implies (#[trigger] twice(
        once(manifests[i]).value,
    )).value == once(manifests[i]).value && twice(once(manifests[i]).value).error is None by {
        lemma_manifest_again(locals, again, manifests[i]);
    }
    lemma_sweep_again(manifests, once, twice);
    match lock {
        Some(document) => {
            lemma_lock_again(locals, again, document);
        },
        None => {},
    }
}

} // verus!
