//! Masking the versions of local packages in a lock document.
//!
//! A lock document lists the packages of a build under `package`, each
//! with its `name`, its resolved `version` and, under `dependencies`, the
//! packages it uses, each written as a name, a space and a version.

use vstd::prelude::*;
use vstd::string::{StrSliceExecFns, StringExecFns};
use crate::document::{field, items_view, Tree, Value};
use crate::error::{fault_of, lift, reading_of, Fault, FaultView, MaskError, Segment, SegmentView};
use crate::manifest::{
    local_covers, named_verdict, placeholder_value, with_version_masked, CONST_VERSION,
};
use crate::package::{packages_view, Package, PackageView};
use crate::sweep::{done, in_field, lemma_first_failure, sweep, sweep_array, Step};
use crate::text::{chars_of, prefix_end, prefix_len, same_text};

verus! {

/// How a lock document refers to `package`: its name, a space, its version.
pub open spec fn reference(package: PackageView) -> Seq<char> {
    package.name + " "@ + package.version
}

/// Whether `text` refers to one of `locals` in the very version recorded
/// for it.
pub open spec fn refers_to_local(locals: Seq<PackageView>, text: Seq<char>) -> bool {
    exists|i: int| 0 <= i < locals.len() && reference(#[trigger] locals[i]) == text
}

/// The reference `text` with the placeholder as its version: what `text`
/// holds before its first space, a space, the placeholder.
pub open spec fn masked_reference_text(text: Seq<char>) -> Seq<char> {
    text.take(prefix_len(text, ' ')) + " "@ + CONST_VERSION@
}

/// An item of a list of references after masking. An item that is no
/// string cannot be read.
pub open spec fn masked_reference(locals: Seq<PackageView>, item: Tree) -> Step<Tree> {
    match item {
        Tree::String(text) => if refers_to_local(locals, text) {
            done(Tree::String(masked_reference_text(text)))
        } else {
            done(item)
        },
        _ => Step {
            value: item,
            error: Some((FaultView { error: MaskError::MalformedPackageEntry, field: seq![] })),
        },
    }
}

/// A list of references after masking; what is no array stays as it is.
pub open spec fn masked_references(locals: Seq<PackageView>, list: Tree) -> Step<Tree> {
    match list {
        Tree::Array(items) => sweep_array(items, |item: Tree| masked_reference(locals, item)),
        _ => done(list),
    }
}

/// Whether `entry` stands for a local package: it holds a `name` and a
/// `version`, the name is that of a local package, and the version recorded
/// for that package covers the version of the entry.
///
/// A name that is no string is a fault at `name`.
pub open spec fn lock_entry_verdict(locals: Seq<PackageView>, entry: Tree) -> Result<
    bool,
    FaultView,
> {
    match (field(entry, "name"@), field(entry, "version"@)) {
        (Some(Tree::String(name)), Some(version)) => named_verdict(locals, name, version),
        (Some(_), Some(_)) => Err(FaultView::at(MaskError::MalformedPackageEntry, "name"@)),
        _ => Ok(false),
    }
}

/// An entry of the lock document after masking: where it stands for a local
/// package, its version is the placeholder and the references under its
/// `dependencies` are masked.
pub open spec fn masked_lock_entry(locals: Seq<PackageView>, entry: Tree) -> Step<Tree> {
    match lock_entry_verdict(locals, entry) {
        Ok(true) => in_field(
            with_version_masked(entry),
            "dependencies"@,
            |list: Tree| masked_references(locals, list),
        ),
        Ok(false) => done(entry),
        Err(e) => Step { value: entry, error: Some(e) },
    }
}

/// The list of packages of a lock document after masking; what is no array
/// stays as it is.
pub open spec fn masked_lock_entries(locals: Seq<PackageView>, packages: Tree) -> Step<Tree> {
    match packages {
        Tree::Array(entries) => sweep_array(
            entries,
            |entry: Tree| masked_lock_entry(locals, entry),
        ),
        _ => done(packages),
    }
}

/// A lock document after masking.
pub open spec fn masked_lock(locals: Seq<PackageView>, lock: Tree) -> Step<Tree> {
    in_field(lock, "package"@, |packages: Tree| masked_lock_entries(locals, packages))
}

/// The views of `texts`, in order.
pub open spec fn texts_view(texts: Seq<String>) -> Seq<Seq<char>> {
    Seq::new(texts.len(), |i: int| texts[i]@)
}

/// How a lock document refers to each of `locals`.
pub open spec fn references(locals: Seq<PackageView>) -> Seq<Seq<char>> {
    Seq::new(locals.len(), |i: int| reference(locals[i]))
}

/// How a lock document refers to each of `locals`, in order.
fn references_of(locals: &[Package]) -> (r: Vec<String>)
    ensures
        texts_view(r@) == references(packages_view(locals@)),
{
    let mut texts: Vec<String> = Vec::new();
    let mut i: usize = 0;
    while i < locals.len()
        invariant
            i <= locals.len(),
            texts.len() == i,
            forall|j: int| 0 <= j < i ==> texts@[j]@ == reference(locals@[j]@),
        decreases locals.len() - i,
    {
        let mut text = String::from_str(locals[i].name.as_str());
        text.append(" ");
        text.append(locals[i].version.as_str());
        texts.push(text);
        i += 1;
    }
    assert(texts_view(texts@) =~= references(packages_view(locals@)));
    texts
}

/// Whether `text` is one of `texts`.
fn is_among(texts: &Vec<String>, text: &str) -> (r: bool)
    ensures
        r == exists|i: int| 0 <= i < texts.len() && (#[trigger] texts@[i])@ == text@,
{
    let mut i: usize = 0;
    while i < texts.len()
        invariant
            i <= texts.len(),
            forall|j: int| 0 <= j < i ==> (#[trigger] texts@[j])@ != text@,
        decreases texts.len() - i,
    {
        if same_text(texts[i].as_str(), text) {
            return true;
        }
        i += 1;
    }
    false
}

/// The reference `text` with the placeholder as its version.
fn mask_reference(text: &str) -> (r: String)
    ensures
        r@ == masked_reference_text(text@),
{
    let chars = chars_of(text);
    let space = prefix_end(&chars, 0, ' ');
    assert(chars@.skip(0) =~= chars@);
    let mut masked = String::from_str(text.substring_char(0, space));
    masked.append(" ");
    masked.append(CONST_VERSION);
    assert(text@.subrange(0, space as int) =~= text@.take(space as int));
    masked
}

/// Masks the items of a list of references.
fn mask_reference_items(
    locals: &[Package],
    texts: &Vec<String>,
    items: &mut Vec<Value>,
) -> (r: Result<(), Fault>)
    requires
        texts_view(texts@) == references(packages_view(locals@)),
    ensures
        Tree::Array(items_view(final(items)@)) == masked_references(
            packages_view(locals@),
            Tree::Array(items_view(old(items)@)),
        ).value,
        fault_of(r) == masked_references(
            packages_view(locals@),
            Tree::Array(items_view(old(items)@)),
        ).error,
{
    let ghost before = items_view(items@);
    let ghost known = packages_view(locals@);
    let ghost step = |item: Tree| masked_reference(known, item);
    let n = items.len();
    let mut i: usize = 0;
    while i < n
        invariant
            i <= n,
            items.len() == n,
            before.len() == n,
            before == items_view(old(items)@),
            known == packages_view(locals@),
            texts_view(texts@) == references(known),
            step == |item: Tree| masked_reference(known, item),
            forall|j: int| 0 <= j < i ==> (#[trigger] step(before[j])).error is None,
            forall|j: int| 0 <= j < i ==> items_view(items@)[j] == step(before[j]).value,
            forall|j: int| i <= j < n ==> items_view(items@)[j] == before[j],
        decreases n - i,
    {
        let ghost current = items_view(items@);
        let masked = match items[i].as_str() {
            Some(text) => {
                proof {
                    lemma_refers_to_local(known, texts@, text@);
                }
                if is_among(texts, text) {
                    Some(mask_reference(text))
                } else {
                    None
                }
            },
            None => {
                proof {
                    assert(step(before[i as int]).error is Some);
                    lemma_first_failure(before, step);
                    assert(sweep(before, step).value =~= items_view(items@));
                }
                let mut field: Vec<Segment> = Vec::new();
                field.push(Segment::Index(i));
                let fault = Fault { error: MaskError::MalformedPackageEntry, field };
                assert(fault@.field =~= seq![SegmentView::Index(i as int)] + Seq::<
                    SegmentView,
                >::empty());
                return Err(fault);
            },
        };
        match masked {
            Some(text) => {
                items[i] = Value::String(text);
            },
            None => {},
        }
        proof {
            assert forall|j: int| 0 <= j < i + 1 implies items_view(items@)[j] == step(
                before[j],
            ).value by {
                assert(items_view(items@)[j] == if j < i {
                    current[j]
                } else {
                    step(before[j]).value
                });
            }
            assert forall|j: int| i + 1 <= j < n implies items_view(items@)[j] == before[j] by {
                assert(items_view(items@)[j] == current[j]);
            }
        }
        i += 1;
    }
    proof {
        lemma_first_failure(before, step);
        assert(sweep(before, step).value =~= items_view(items@));
    }
    Ok(())
}

/// A text refers to a local package exactly if it is among the references
/// to the local packages.
proof fn lemma_refers_to_local(locals: Seq<PackageView>, texts: Seq<String>, text: Seq<char>)
    requires
        texts_view(texts) == references(locals),
    ensures
        refers_to_local(locals, text) <==> exists|i: int|
            0 <= i < texts.len() && (#[trigger] texts[i])@ == text,
{
    assert(texts_view(texts).len() == texts.len());
    assert(references(locals).len() == locals.len());
    if refers_to_local(locals, text) {
        let i = choose|i: int| 0 <= i < locals.len() && reference(#[trigger] locals[i]) == text;
        assert(texts_view(texts)[i] == references(locals)[i]);
        assert(texts[i]@ == text);
    }
    if exists|i: int| 0 <= i < texts.len() && (#[trigger] texts[i])@ == text {
        let i = choose|i: int| 0 <= i < texts.len() && (#[trigger] texts[i])@ == text;
        assert(texts_view(texts)[i] == references(locals)[i]);
        assert(reference(locals[i]) == text);
    }
}

/// Masks a list of references; what is no array stays as it is.
fn mask_reference_list(
    locals: &[Package],
    texts: &Vec<String>,
    list: &mut Value,
) -> (r: Result<(), Fault>)
    requires
        texts_view(texts@) == references(packages_view(locals@)),
    ensures
        final(list)@ == masked_references(packages_view(locals@), old(list)@).value,
        fault_of(r) == masked_references(packages_view(locals@), old(list)@).error,
{
    match list.as_array_mut() {
        Some(items) => mask_reference_items(locals, texts, items),
        None => Ok(()),
    }
}

/// Masks the references that `entry` holds under `dependencies`.
fn mask_entry_references(
    locals: &[Package],
    texts: &Vec<String>,
    entry: &mut Value,
) -> (r: Result<(), Fault>)
    requires
        texts_view(texts@) == references(packages_view(locals@)),
    ensures
        final(entry)@ == in_field(
            old(entry)@,
            "dependencies"@,
            |list: Tree| masked_references(packages_view(locals@), list),
        ).value,
        fault_of(r) == in_field(
            old(entry)@,
            "dependencies"@,
            |list: Tree| masked_references(packages_view(locals@), list),
        ).error,
{
    match entry.get_mut("dependencies") {
        Some(list) => lift(mask_reference_list(locals, texts, list), "dependencies"),
        None => Ok(()),
    }
}

/// Whether `entry` stands for a local package.
fn lock_entry_is_local(locals: &[Package], entry: &Value) -> (r: Result<bool, Fault>)
    ensures
        reading_of(r) == lock_entry_verdict(packages_view(locals@), entry@),
{
    match (entry.get("name"), entry.get("version")) {
        (Some(name), Some(version)) => match name.as_str() {
            Some(name) => local_covers(locals, name, version),
            None => Err(Fault::at(MaskError::MalformedPackageEntry, "name")),
        },
        _ => Ok(false),
    }
}

/// Masks one entry of the lock document.
fn mask_lock_entry(
    locals: &[Package],
    texts: &Vec<String>,
    entry: &mut Value,
) -> (r: Result<(), Fault>)
    requires
        texts_view(texts@) == references(packages_view(locals@)),
    ensures
        final(entry)@ == masked_lock_entry(packages_view(locals@), old(entry)@).value,
        fault_of(r) == masked_lock_entry(packages_view(locals@), old(entry)@).error,
{
    match lock_entry_is_local(locals, entry) {
        Err(e) => Err(e),
        Ok(false) => Ok(()),
        Ok(true) => {
            entry.set("version", placeholder_value());
            mask_entry_references(locals, texts, entry)
        },
    }
}

/// Masks the entries of the list of packages.
fn mask_lock_items(
    locals: &[Package],
    texts: &Vec<String>,
    items: &mut Vec<Value>,
) -> (r: Result<(), Fault>)
    requires
        texts_view(texts@) == references(packages_view(locals@)),
    ensures
        Tree::Array(items_view(final(items)@)) == masked_lock_entries(
            packages_view(locals@),
            Tree::Array(items_view(old(items)@)),
        ).value,
        fault_of(r) == masked_lock_entries(
            packages_view(locals@),
            Tree::Array(items_view(old(items)@)),
        ).error,
{
    let ghost before = items_view(items@);
    let ghost known = packages_view(locals@);
    let ghost step = |entry: Tree| masked_lock_entry(known, entry);
    let n = items.len();
    let mut i: usize = 0;
    while i < n
        invariant
            i <= n,
            items.len() == n,
            before.len() == n,
            before == items_view(old(items)@),
            known == packages_view(locals@),
            texts_view(texts@) == references(known),
            step == |entry: Tree| masked_lock_entry(known, entry),
            forall|j: int| 0 <= j < i ==> (#[trigger] step(before[j])).error is None,
            forall|j: int| 0 <= j < i ==> items_view(items@)[j] == step(before[j]).value,
            forall|j: int| i <= j < n ==> items_view(items@)[j] == before[j],
        decreases n - i,
    {
        let ghost current = items_view(items@);
        let r = mask_lock_entry(locals, texts, &mut items[i]);
        proof {
            assert forall|j: int| 0 <= j < i + 1 implies items_view(items@)[j] == step(
                before[j],
            ).value by {
                assert(items_view(items@)[j] == if j < i {
                    current[j]
                } else {
                    step(before[j]).value
                });
            }
            assert forall|j: int| i + 1 <= j < n implies items_view(items@)[j] == before[j] by {
                assert(items_view(items@)[j] == current[j]);
            }
        }
        match r {
            Err(fault) => {
                proof {
                    assert(step(before[i as int]).error == Some(fault@));
                    lemma_first_failure(before, step);
                    assert(sweep(before, step).value =~= items_view(items@));
                }
                return Err(fault.under(Segment::Index(i)));
            },
            Ok(()) => {},
        }
        i += 1;
    }
    proof {
        lemma_first_failure(before, step);
        assert(sweep(before, step).value =~= items_view(items@));
    }
    Ok(())
}

/// Masks the list of packages; what is no array stays as it is.
fn mask_lock_entries(
    locals: &[Package],
    texts: &Vec<String>,
    packages: &mut Value,
) -> (r: Result<(), Fault>)
    requires
        texts_view(texts@) == references(packages_view(locals@)),
    ensures
        final(packages)@ == masked_lock_entries(packages_view(locals@), old(packages)@).value,
        fault_of(r) == masked_lock_entries(packages_view(locals@), old(packages)@).error,
{
    match packages.as_array_mut() {
        Some(items) => mask_lock_items(locals, texts, items),
        None => Ok(()),
    }
}

/// Masks the versions of local packages in a lock document.
///
/// An entry under `package` stands for a local package where it holds a
/// `name` and a `version`, the name is that of a local package, and the
/// version recorded for that package covers the version of the entry. Such
/// an entry gets the placeholder as its version. Under its `dependencies`,
/// each reference that is the name, a space and the recorded version of a
/// local package gets the placeholder in place of the version.
///
/// The first entry or reference that cannot be read ends the work: what was
/// masked until then stays masked, and nothing else has changed.
pub fn mask_local_versions_in_lockfile(
    lock_file: &mut Value,
    local_package_names: &[Package],
) -> (r: Result<(), Fault>)
    ensures
        final(lock_file)@ == masked_lock(
            packages_view(local_package_names@),
            old(lock_file)@,
        ).value,
        fault_of(r) == masked_lock(packages_view(local_package_names@), old(lock_file)@).error,
{
    let texts = references_of(local_package_names);
    match lock_file.get_mut("package") {
        Some(packages) => lift(mask_lock_entries(local_package_names, &texts, packages), "package"),
        None => Ok(()),
    }
}

} // verus!
