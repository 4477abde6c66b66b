//! Masking as a chain of stages.
//!
//! Each part of masking a manifest works on what the manifest holds under
//! one key, and no two parts work under the same key. The lemmas here say
//! so, and let what is proved of chains be used of manifests.

use vstd::prelude::*;
use crate::document::{field, lemma_with_field, Tree};
use crate::manifest::{
    masked_dependency_table, masked_manifest, masked_tables, masked_target_table, masked_workspace,
    with_own_version_masked, with_version_masked,
};
use crate::package::PackageView;
use crate::sweep::{chain, distinct_keys, done, in_field, Stage, Step};

verus! {

/// The keys that masking reads are all different.
pub proof fn lemma_keys_differ()
    ensures
        "package"@ != "version"@,
        "package"@ != "name"@,
        "package"@ != "dependencies"@,
        "package"@ != "dev-dependencies"@,
        "package"@ != "build-dependencies"@,
        "package"@ != "target"@,
        "package"@ != "workspace"@,
        "version"@ != "name"@,
        "version"@ != "dependencies"@,
        "name"@ != "dependencies"@,
        "dependencies"@ != "dev-dependencies"@,
        "dependencies"@ != "build-dependencies"@,
        "dependencies"@ != "target"@,
        "dependencies"@ != "workspace"@,
        "dev-dependencies"@ != "build-dependencies"@,
        "dev-dependencies"@ != "target"@,
        "dev-dependencies"@ != "workspace"@,
        "build-dependencies"@ != "target"@,
        "build-dependencies"@ != "workspace"@,
        "target"@ != "workspace"@,
{
    reveal_strlit("package");
    reveal_strlit("version");
    reveal_strlit("name");
    reveal_strlit("dependencies");
    reveal_strlit("dev-dependencies");
    reveal_strlit("build-dependencies");
    reveal_strlit("target");
    reveal_strlit("workspace");
    assert("package"@[0] != "version"@[0]);
    assert("package"@.len() != "name"@.len());
    assert("package"@.len() != "dependencies"@.len());
    assert("package"@.len() != "dev-dependencies"@.len());
    assert("package"@.len() != "build-dependencies"@.len());
    assert("package"@.len() != "target"@.len());
    assert("package"@.len() != "workspace"@.len());
    assert("version"@.len() != "name"@.len());
    assert("version"@.len() != "dependencies"@.len());
    assert("name"@.len() != "dependencies"@.len());
    assert("dependencies"@.len() != "dev-dependencies"@.len());
    assert("dependencies"@.len() != "build-dependencies"@.len());
    assert("dependencies"@.len() != "target"@.len());
    assert("dependencies"@.len() != "workspace"@.len());
    assert("dev-dependencies"@.len() != "build-dependencies"@.len());
    assert("dev-dependencies"@.len() != "target"@.len());
    assert("dev-dependencies"@.len() != "workspace"@.len());
    assert("build-dependencies"@.len() != "target"@.len());
    assert("build-dependencies"@.len() != "workspace"@.len());
    assert("target"@.len() != "workspace"@.len());
}

/// The stage that masks the dependency table under `name`.
pub open spec fn table_stage(locals: Seq<PackageView>, name: Seq<char>) -> Stage {
    Stage { key: name, inner: |table: Tree| masked_dependency_table(locals, table) }
}

/// The stages that mask the three dependency tables of a tree.
pub open spec fn tables_stages(locals: Seq<PackageView>) -> Seq<Stage> {
    seq![
        table_stage(locals, "dependencies"@),
        table_stage(locals, "dev-dependencies"@),
        table_stage(locals, "build-dependencies"@),
    ]
}

/// Masking the three dependency tables is a chain of three stages.
pub proof fn lemma_tables_chain(locals: Seq<PackageView>, tree: Tree)
    ensures
        masked_tables(locals, tree) == chain(tree, tables_stages(locals)),
        distinct_keys(tables_stages(locals)),
{
    lemma_keys_differ();
    let stages = tables_stages(locals);
    let two = stages.drop_first();
    let one = two.drop_first();
    assert(one.drop_first().len() == 0);
    reveal_with_fuel(chain, 4);
}

/// What masking makes of the `package` table of a manifest or of a
/// workspace: the placeholder is its version where it has one as a string.
pub open spec fn own_version_step(package: Tree) -> Step<Tree> {
    match field(package, "version"@) {
        Some(Tree::String(_)) => done(with_version_masked(package)),
        _ => done(package),
    }
}

/// The stages that mask a `workspace` table.
pub open spec fn workspace_stages(locals: Seq<PackageView>) -> Seq<Stage> {
    seq![
        Stage { key: "package"@, inner: |package: Tree| own_version_step(package) },
        table_stage(locals, "dependencies"@),
    ]
}

/// Masking a `workspace` table is a chain of two stages.
pub proof fn lemma_workspace_chain(locals: Seq<PackageView>, workspace: Tree)
    ensures
        masked_workspace(locals, workspace) == chain(workspace, workspace_stages(locals)),
        distinct_keys(workspace_stages(locals)),
{
    lemma_keys_differ();
    let stages = workspace_stages(locals);
    let one = stages.drop_first();
    assert(one.drop_first().len() == 0);
    match field(workspace, "package"@) {
        Some(package) => {
            lemma_with_field(workspace, "package"@, package);
        },
        None => {},
    }
    assert(in_field(workspace, "package"@, stages[0].inner) == done(
        with_own_version_masked(workspace),
    ));
    reveal_with_fuel(chain, 3);
}

/// The stages that mask a manifest.
pub open spec fn manifest_stages(locals: Seq<PackageView>) -> Seq<Stage> {
    seq![
        Stage { key: "package"@, inner: |package: Tree| own_version_step(package) },
        table_stage(locals, "dependencies"@),
        table_stage(locals, "dev-dependencies"@),
        table_stage(locals, "build-dependencies"@),
        Stage { key: "target"@, inner: |targets: Tree| masked_target_table(locals, targets) },
        Stage { key: "workspace"@, inner: |workspace: Tree| masked_workspace(locals, workspace) },
    ]
}

/// Masking a manifest is a chain of six stages.
pub proof fn lemma_manifest_chain(locals: Seq<PackageView>, manifest: Tree)
    ensures
        masked_manifest(locals, manifest) == chain(manifest, manifest_stages(locals)),
        distinct_keys(manifest_stages(locals)),
{
    lemma_keys_differ();
    let stages = manifest_stages(locals);
    let five = stages.drop_first();
    let four = five.drop_first();
    let three = four.drop_first();
    let two = three.drop_first();
    let one = two.drop_first();
    assert(one.drop_first().len() == 0);
    match field(manifest, "package"@) {
        Some(package) => {
            lemma_with_field(manifest, "package"@, package);
        },
        None => {},
    }
    assert(in_field(manifest, "package"@, stages[0].inner) == done(
        with_own_version_masked(manifest),
    ));
    reveal_with_fuel(chain, 7);
}

} // verus!
