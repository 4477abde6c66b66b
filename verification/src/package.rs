//! Local packages: those built from source within the project.

use vstd::prelude::*;
use crate::text::same_text;

verus! {

/// A package that is built from local source, as its manifest declares it.
#[derive(Debug, PartialEq, Eq)]
pub struct Package {
    pub name: String,
    pub version: String,
}

/// What a [`Package`] holds.
pub struct PackageView {
    pub name: Seq<char>,
    pub version: Seq<char>,
}

impl View for Package {
    type V = PackageView;

    open spec fn view(&self) -> PackageView {
        PackageView { name: self.name@, version: self.version@ }
    }
}

impl Clone for Package {
    /// A second package with the same name and version.
    fn clone(&self) -> (r: Package)
        ensures
            r@ == self@,
    {
        Package { name: self.name.clone(), version: self.version.clone() }
    }
}

/// What `packages` hold, in order.
pub open spec fn packages_view(packages: Seq<Package>) -> Seq<PackageView> {
    Seq::new(packages.len(), |i: int| packages[i]@)
}

/// Whether the first of `locals` named `name` stands at `at`.
pub open spec fn is_first_named(locals: Seq<PackageView>, name: Seq<char>, at: int) -> bool {
    &&& 0 <= at < locals.len()
    &&& locals[at].name == name
    &&& forall|i: int| 0 <= i < at ==> (#[trigger] locals[i]).name != name
}

/// The place of the first of `locals` named `name`.
pub open spec fn local_index(locals: Seq<PackageView>, name: Seq<char>) -> Option<int> {
    if exists|at: int| is_first_named(locals, name, at) {
        Some(choose|at: int| is_first_named(locals, name, at))
    } else {
        None
    }
}

/// The version recorded for the local package `name`: that of the first of
/// `locals` with this name.
pub open spec fn recorded_version(locals: Seq<PackageView>, name: Seq<char>) -> Option<Seq<char>> {
    match local_index(locals, name) {
        Some(at) => Some(locals[at].version),
        None => None,
    }
}

/// Whether no two of `locals` share a name.
pub open spec fn distinct_names(locals: Seq<PackageView>) -> bool {
    forall|i: int, j: int|
        0 <= i < j < locals.len() ==> (#[trigger] locals[i]).name != (#[trigger] locals[j]).name
}

/// The first local package under a name is the only one that `local_index`
/// can name.
pub proof fn lemma_local_index(locals: Seq<PackageView>, name: Seq<char>)
    ensures
        forall|at: int| is_first_named(locals, name, at) ==> local_index(locals, name) == Some(at),
        local_index(locals, name) is Some ==> is_first_named(
            locals,
            name,
            local_index(locals, name)->0,
        ),
        local_index(locals, name) is None ==> forall|i: int|
            0 <= i < locals.len() ==> (#[trigger] locals[i]).name != name,
{
    assert forall|at: int| is_first_named(locals, name, at) implies local_index(locals, name)
        == Some(at) by {
        let chosen = choose|c: int| is_first_named(locals, name, c);
        if chosen < at {
            assert(locals[chosen].name == name);
        } else if at < chosen {
            assert(locals[at].name == name);
        }
    }
    if local_index(locals, name) is None {
        lemma_unnamed(locals, name, locals.len() as int);
    }
}

proof fn lemma_unnamed(locals: Seq<PackageView>, name: Seq<char>, upto: int)
    requires
        0 <= upto <= locals.len(),
        local_index(locals, name) is None,
    ensures
        forall|i: int| 0 <= i < upto ==> (#[trigger] locals[i]).name != name,
    decreases upto,
{
    if upto > 0 {
        lemma_unnamed(locals, name, upto - 1);
        if locals[upto - 1].name == name {
            assert(is_first_named(locals, name, upto - 1));
        }
    }
}

/// The first of `locals` that is named `name`.
pub fn find_local<'a>(locals: &'a [Package], name: &str) -> (r: Option<&'a Package>)
    ensures
        match r {
            Some(package) => {
                &&& local_index(packages_view(locals@), name@) is Some
                &&& package@ == packages_view(locals@)[local_index(
                    packages_view(locals@),
                    name@,
                )->0]
            },
            None => local_index(packages_view(locals@), name@) is None,
        },
{
    let mut i: usize = 0;
    while i < locals.len()
        invariant
            i <= locals.len(),
            forall|j: int| 0 <= j < i ==> (#[trigger] packages_view(locals@)[j]).name != name@,
        decreases locals.len() - i,
    {
        if same_text(locals[i].name.as_str(), name) {
            proof {
                assert(is_first_named(packages_view(locals@), name@, i as int));
                lemma_local_index(packages_view(locals@), name@);
            }
            return Some(&locals[i]);
        }
        i += 1;
    }
    proof {
        assert forall|at: int| !is_first_named(packages_view(locals@), name@, at) by {
            if 0 <= at < locals.len() {
                assert(packages_view(locals@)[at].name != name@);
            }
        }
    }
    None
}

} // verus!
